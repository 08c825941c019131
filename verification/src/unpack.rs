//! Unpacking an entry below a destination: what is to be done to the file
//! system, one operation after the other, and what each operation's
//! outcome leads to. The caller performs the operations.

use vstd::prelude::*;
use vstd::slice::slice_to_vec;
use crate::de::{Archive, Entries, Entry, EntryKind};
use crate::error::{Error, ErrorView, IoErrorKind};
use crate::grammar::{archive_head, archive_trace, EntryKindView, EntryView, Trace};

verus! {

/// The kinds of component that a path is made of.
#[derive(Copy, Clone, Debug, PartialEq, Eq, Structural)]
pub enum PathComponent {
    /// A prefix of the platform, such as a drive.
    Prefix,
    /// The root directory.
    RootDir,
    /// The current directory, `.`.
    CurDir,
    /// The parent directory, `..`.
    ParentDir,
    /// A name.
    Normal,
}

/// A time of a file: seconds and nanoseconds.
#[derive(Copy, Clone, Debug, PartialEq, Eq, Structural)]
pub struct Timestamp {
    pub seconds: i64,
    pub nanos: u32,
}

/// The times of a directory that unpacking looks at.
#[derive(Copy, Clone, Debug, PartialEq, Eq, Structural)]
pub struct DirTimes {
    /// When it was created, where the platform knows.
    pub created: Option<Timestamp>,
    /// When it was last accessed.
    pub accessed: Timestamp,
}

/// Whether `t` is the time zero.
pub open spec fn is_epoch(t: Timestamp) -> bool {
    t.seconds == 0 && t.nanos == 0
}

/// The mode of a regular file that is unpacked.
pub open spec fn file_mode(executable: bool) -> u32 {
    if executable {
        0o555
    } else {
        0o444
    }
}

/// An operation on the file system that unpacking asks for.
#[derive(Debug)]
pub enum Op {
    /// Look up the times of the directory at `path`, without following a
    /// symbolic link; answered by `Times`, with `None` where that fails.
    DirTimes { path: String },
    /// Create the directory `path`.
    CreateDir { path: String },
    /// Whether `path`, symbolic links followed, is a directory; answered by
    /// `Flag`, with `false` where the look-up fails.
    IsDir { path: String },
    /// Whether something stands at `path`, symbolic links followed;
    /// answered by `Flag`.
    Exists { path: String },
    /// Whether something stands at `path`, a dangling symbolic link too;
    /// answered by `Flag`.
    SymlinkExists { path: String },
    /// Remove the file or symbolic link at `path`.
    RemoveFile { path: String },
    /// Create the file `path`, which must not exist, with `mode`, and write
    /// `data` to it.
    WriteFile { path: String, mode: u32, data: Vec<u8> },
    /// Create the symbolic link `path` that points to `target`.
    Symlink { target: String, path: String },
    /// Remove all extended attributes of `path`.
    RemoveXattrs { path: String },
    /// Look up the access time of `path`, without following a symbolic
    /// link; answered by `Time`.
    AccessTime { path: String },
    /// Set the access and modification time of `path`, without following a
    /// symbolic link.
    SetTimes { path: String, atime: Timestamp, mtime: Timestamp },
}

/// An operation as a mathematical value.
pub enum OpView {
    DirTimes { path: Seq<char> },
    CreateDir { path: Seq<char> },
    IsDir { path: Seq<char> },
    Exists { path: Seq<char> },
    SymlinkExists { path: Seq<char> },
    RemoveFile { path: Seq<char> },
    WriteFile { path: Seq<char>, mode: u32, data: Seq<u8> },
    Symlink { target: Seq<char>, path: Seq<char> },
    RemoveXattrs { path: Seq<char> },
    AccessTime { path: Seq<char> },
    SetTimes { path: Seq<char>, atime: Timestamp, mtime: Timestamp },
}

impl View for Op {
    type V = OpView;

    open spec fn view(&self) -> OpView {
        match *self {
            Op::DirTimes { path } => OpView::DirTimes { path: path@ },
            Op::CreateDir { path } => OpView::CreateDir { path: path@ },
            Op::IsDir { path } => OpView::IsDir { path: path@ },
            Op::Exists { path } => OpView::Exists { path: path@ },
            Op::SymlinkExists { path } => OpView::SymlinkExists { path: path@ },
            Op::RemoveFile { path } => OpView::RemoveFile { path: path@ },
            Op::WriteFile { path, mode, data } => OpView::WriteFile {
                path: path@,
                mode,
                data: data@,
            },
            Op::Symlink { target, path } => OpView::Symlink { target: target@, path: path@ },
            Op::RemoveXattrs { path } => OpView::RemoveXattrs { path: path@ },
            Op::AccessTime { path } => OpView::AccessTime { path: path@ },
            Op::SetTimes { path, atime, mtime } => OpView::SetTimes { path: path@, atime, mtime },
        }
    }
}

/// What the caller reports back: how the operation that was asked for went.
#[derive(Copy, Clone, Debug, PartialEq, Eq, Structural)]
pub enum Event {
    /// Nothing was asked for yet.
    Start,
    /// The operation was done.
    Done,
    /// The operation failed.
    Failed(IoErrorKind),
    /// The answer to a question.
    Flag(bool),
    /// The times of a directory, if they could be had.
    Times(Option<DirTimes>),
    /// A time.
    Time(Timestamp),
}

/// What comes next: an operation to perform, or the end of unpacking.
#[derive(Debug)]
pub enum Step {
    Do(Op),
    Finished(Result<(), Error>),
}

/// What comes next, as a mathematical value.
pub enum StepView {
    Do(OpView),
    Finished(Result<(), ErrorView>),
}

impl View for Step {
    type V = StepView;

    open spec fn view(&self) -> StepView {
        match *self {
            Step::Do(op) => StepView::Do(op@),
            Step::Finished(Ok(())) => StepView::Finished(Ok(())),
            Step::Finished(Err(e)) => StepView::Finished(Err(e@)),
        }
    }
}

/// Where unpacking stands: which answer it waits for.
#[derive(Copy, Clone, Debug, PartialEq, Eq, Structural)]
pub enum Stage {
    Begin,
    ParentTimes,
    CreateDir,
    IsDir,
    Exists,
    SymlinkExists,
    RemoveFile,
    Write,
    RemoveXattrs,
    AccessTime,
    SetTimes,
    SetParentTimes,
    Finished,
}

/// An entry that is being unpacked, as a mathematical value.
pub struct UnpackView {
    /// What the entry holds.
    pub kind: EntryKindView,
    /// Where it goes.
    pub path: Seq<char>,
    /// The directory that it goes into, unless the entry is the root.
    pub parent: Option<Seq<char>>,
    pub remove_xattrs: bool,
    pub canonicalize_mtime: bool,
    pub stage: Stage,
    /// The access time of the parent, kept where the parent's times are to
    /// be set back once the entry is written.
    pub parent_atime: Option<Timestamp>,
}

impl UnpackView {
    /// `self` at another stage.
    pub open spec fn at(self, stage: Stage) -> UnpackView {
        UnpackView { stage, ..self }
    }

    /// Unpacking ends with the error `e`.
    pub open spec fn failed(self, e: ErrorView) -> (UnpackView, StepView) {
        (self.at(Stage::Finished), StepView::Finished(Err(e)))
    }

    /// Unpacking ends with the error `kind` of an operation on the entry's
    /// own node, which is reported with the path.
    pub open spec fn failed_at(self, kind: IoErrorKind) -> (UnpackView, StepView) {
        self.failed(ErrorView::IoAt { inner: kind, path: self.path })
    }

    /// A parent whose creation time is zero has its times set back after
    /// the entry is written, whatever the entry's own settings: its access
    /// time is kept for that.
    pub open spec fn remember(self, times: Option<DirTimes>) -> UnpackView {
        UnpackView {
            parent_atime: match times {
                Some(t) => match t.created {
                    Some(c) => if is_epoch(c) {
                        Some(t.accessed)
                    } else {
                        None
                    },
                    None => None,
                },
                None => None,
            },
            ..self
        }
    }

    /// The first operation on the entry's own node: a directory is created
    /// at once; for a file or a link it is first asked whether something
    /// stands in the way.
    pub open spec fn write_step(self) -> (UnpackView, StepView) {
        match self.kind {
            EntryKindView::Directory => (
                self.at(Stage::CreateDir),
                StepView::Do(OpView::CreateDir { path: self.path }),
            ),
            EntryKindView::Regular { .. } => (
                self.at(Stage::Exists),
                StepView::Do(OpView::Exists { path: self.path }),
            ),
            EntryKindView::Symlink { .. } => (
                self.at(Stage::SymlinkExists),
                StepView::Do(OpView::SymlinkExists { path: self.path }),
            ),
        }
    }

    /// The operation that creates the file or the link, once nothing stands
    /// in the way.
    pub open spec fn create_step(self) -> (UnpackView, StepView) {
        match self.kind {
            EntryKindView::Directory => (
                self.at(Stage::CreateDir),
                StepView::Do(OpView::CreateDir { path: self.path }),
            ),
            EntryKindView::Regular { executable, data } => (
                self.at(Stage::Write),
                StepView::Do(
                    OpView::WriteFile { path: self.path, mode: file_mode(executable), data },
                ),
            ),
            EntryKindView::Symlink { target } => (
                self.at(Stage::Write),
                StepView::Do(OpView::Symlink { target, path: self.path }),
            ),
        }
    }

    /// What follows once the node is written, from `phase` on: the removal
    /// of the extended attributes (0), the node's own times (1), the
    /// parent's times (2); each only where it is called for.
    pub open spec fn settle(self, phase: nat) -> (UnpackView, StepView)
        decreases 3 - phase,
    {
        if phase == 0 {
            if self.remove_xattrs {
                (self.at(Stage::RemoveXattrs), StepView::Do(OpView::RemoveXattrs { path: self.path }))
            } else {
                self.settle(1)
            }
        } else if phase == 1 {
            if self.canonicalize_mtime {
                (self.at(Stage::AccessTime), StepView::Do(OpView::AccessTime { path: self.path }))
            } else {
                self.settle(2)
            }
        } else {
            match (self.parent_atime, self.parent) {
                (Some(atime), Some(parent)) => (
                    self.at(Stage::SetParentTimes),
                    StepView::Do(
                        OpView::SetTimes {
                            path: parent,
                            atime,
                            mtime: Timestamp { seconds: 0, nanos: 0 },
                        },
                    ),
                ),
                _ => (self.at(Stage::Finished), StepView::Finished(Ok(()))),
            }
        }
    }

    /// What unpacking does on `event`, the outcome of the operation it
    /// asked for last: where it stands afterwards, and what comes next. An
    /// outcome that does not answer that operation ends unpacking with an
    /// error.
    pub open spec fn transition(self, event: Event) -> (UnpackView, StepView) {
        match (self.stage, event) {
            (Stage::Begin, Event::Start) => match self.parent {
                Some(parent) => (
                    self.at(Stage::ParentTimes),
                    StepView::Do(OpView::DirTimes { path: parent }),
                ),
                None => self.write_step(),
            },
            (Stage::ParentTimes, Event::Times(times)) => self.remember(times).write_step(),
            (Stage::CreateDir, Event::Done) => self.settle(0),
            (Stage::CreateDir, Event::Failed(kind)) => if kind == IoErrorKind::AlreadyExists {
                (self.at(Stage::IsDir), StepView::Do(OpView::IsDir { path: self.path }))
            } else {
                self.failed_at(kind)
            },
            (Stage::IsDir, Event::Flag(is_dir)) => if is_dir {
                self.settle(0)
            } else {
                self.failed_at(IoErrorKind::AlreadyExists)
            },
            (Stage::Exists, Event::Flag(exists)) => if exists {
                (self.at(Stage::RemoveFile), StepView::Do(OpView::RemoveFile { path: self.path }))
            } else {
                self.create_step()
            },
            (Stage::SymlinkExists, Event::Flag(exists)) => if exists {
                (self.at(Stage::RemoveFile), StepView::Do(OpView::RemoveFile { path: self.path }))
            } else {
                self.create_step()
            },
            (Stage::RemoveFile, Event::Done) => self.create_step(),
            (Stage::RemoveFile, Event::Failed(kind)) => self.failed_at(kind),
            (Stage::Write, Event::Done) => self.settle(0),
            (Stage::Write, Event::Failed(kind)) => self.failed_at(kind),
            (Stage::RemoveXattrs, Event::Done) => self.settle(1),
            (Stage::RemoveXattrs, Event::Failed(kind)) => self.failed(ErrorView::Io(kind)),
            (Stage::AccessTime, Event::Time(atime)) => (
                self.at(Stage::SetTimes),
                StepView::Do(
                    OpView::SetTimes {
                        path: self.path,
                        atime,
                        mtime: Timestamp { seconds: 0, nanos: 0 },
                    },
                ),
            ),
            (Stage::AccessTime, Event::Failed(kind)) => self.failed(ErrorView::Io(kind)),
            (Stage::SetTimes, Event::Done) => self.settle(2),
            (Stage::SetTimes, Event::Failed(kind)) => self.failed(ErrorView::Io(kind)),
            (Stage::SetParentTimes, Event::Done) => (
                self.at(Stage::Finished),
                StepView::Finished(Ok(())),
            ),
            (Stage::SetParentTimes, Event::Failed(kind)) => self.failed(ErrorView::Io(kind)),
            _ => self.failed(ErrorView::Io(IoErrorKind::Other)),
        }
    }
}

/// An entry that is being unpacked below a destination.
#[derive(Debug)]
pub struct Unpack {
    kind: EntryKind,
    path: String,
    parent: Option<String>,
    remove_xattrs: bool,
    canonicalize_mtime: bool,
    stage: Stage,
    parent_atime: Option<Timestamp>,
}

impl View for Unpack {
    type V = UnpackView;

    closed spec fn view(&self) -> UnpackView {
        UnpackView {
            kind: self.kind@,
            path: self.path@,
            parent: match self.parent {
                Some(p) => Some(p@),
                None => None,
            },
            remove_xattrs: self.remove_xattrs,
            canonicalize_mtime: self.canonicalize_mtime,
            stage: self.stage,
            parent_atime: self.parent_atime,
        }
    }
}

/// `FileTime::zero` of the filetime crate, as seconds and nanoseconds. It
/// is taken on trust that both are zero.
#[verifier::external_body]
fn epoch() -> (t: Timestamp)
    ensures
        t.seconds == 0,
        t.nanos == 0,
{
    let zero = filetime::FileTime::zero();
    Timestamp { seconds: zero.seconds(), nanos: zero.nanoseconds() }
}

impl Unpack {
    /// Ends unpacking with the error `e`.
    fn fail(&mut self, e: Error) -> (step: Step)
        ensures
            (final(self)@, step@) == old(self)@.failed(e@),
    {
        self.stage = Stage::Finished;
        Step::Finished(Err(e))
    }

    /// Ends unpacking with an error of an operation on the entry's own node.
    fn fail_at(&mut self, kind: IoErrorKind) -> (step: Step)
        ensures
            (final(self)@, step@) == old(self)@.failed_at(kind),
    {
        let path = self.path.clone();
        self.fail(Error::IoAt { inner: kind, path })
    }

    /// Asks for the first operation on the entry's own node.
    fn write_step(&mut self) -> (step: Step)
        ensures
            (final(self)@, step@) == old(self)@.write_step(),
    {
        let path = self.path.clone();
        match &self.kind {
            EntryKind::Directory => {
                self.stage = Stage::CreateDir;
                Step::Do(Op::CreateDir { path })
            },
            EntryKind::Regular { .. } => {
                self.stage = Stage::Exists;
                Step::Do(Op::Exists { path })
            },
            EntryKind::Symlink { .. } => {
                self.stage = Stage::SymlinkExists;
                Step::Do(Op::SymlinkExists { path })
            },
        }
    }

    /// Asks for the operation that creates the file or the link.
    fn create_step(&mut self) -> (step: Step)
        ensures
            (final(self)@, step@) == old(self)@.create_step(),
    {
        let path = self.path.clone();
        match &self.kind {
            EntryKind::Directory => {
                self.stage = Stage::CreateDir;
                Step::Do(Op::CreateDir { path })
            },
            EntryKind::Regular { executable, data } => {
                let mode: u32 = if *executable {
                    0o555
                } else {
                    0o444
                };
                let data = slice_to_vec(data.as_slice());
                self.stage = Stage::Write;
                Step::Do(Op::WriteFile { path, mode, data })
            },
            EntryKind::Symlink { target } => {
                let target = target.clone();
                self.stage = Stage::Write;
                Step::Do(Op::Symlink { target, path })
            },
        }
    }

    /// Asks for what follows once the node is written, from `phase` on.
    fn settle(&mut self, phase: u8) -> (step: Step)
        requires
            phase <= 2,
        ensures
            (final(self)@, step@) == old(self)@.settle(phase as nat),
    {
        proof {
            reveal_with_fuel(UnpackView::settle, 4);
        }
        if phase == 0 && self.remove_xattrs {
            self.stage = Stage::RemoveXattrs;
            return Step::Do(Op::RemoveXattrs { path: self.path.clone() });
        }
        if phase <= 1 && self.canonicalize_mtime {
            self.stage = Stage::AccessTime;
            return Step::Do(Op::AccessTime { path: self.path.clone() });
        }
        match (&self.parent_atime, &self.parent) {
            (Some(atime), Some(parent)) => {
                let op = Op::SetTimes { path: parent.clone(), atime: *atime, mtime: epoch() };
                self.stage = Stage::SetParentTimes;
                Step::Do(op)
            },
            _ => {
                self.stage = Stage::Finished;
                Step::Finished(Ok(()))
            },
        }
    }

    /// Takes the outcome of the operation that was asked for last (`Start`
    /// at first) and says what comes next: another operation, or the end.
    pub fn step(&mut self, event: Event) -> (step: Step)
        ensures
            (final(self)@, step@) == old(self)@.transition(event),
    {
        match (self.stage, event) {
            (Stage::Begin, Event::Start) => {
                match &self.parent {
                    Some(parent) => {
                        let path = parent.clone();
                        self.stage = Stage::ParentTimes;
                        Step::Do(Op::DirTimes { path })
                    },
                    None => self.write_step(),
                }
            },
            (Stage::ParentTimes, Event::Times(times)) => {
                self.parent_atime = match times {
                    Some(t) => match t.created {
                        Some(c) => if c.seconds == 0 && c.nanos == 0 {
                            Some(t.accessed)
                        } else {
                            None
                        },
                        None => None,
                    },
                    None => None,
                };
                self.write_step()
            },
            (Stage::CreateDir, Event::Done) => self.settle(0),
            (Stage::CreateDir, Event::Failed(kind)) => {
                if kind == IoErrorKind::AlreadyExists {
                    let path = self.path.clone();
                    self.stage = Stage::IsDir;
                    Step::Do(Op::IsDir { path })
                } else {
                    self.fail_at(kind)
                }
            },
            (Stage::IsDir, Event::Flag(is_dir)) => {
                if is_dir {
                    self.settle(0)
                } else {
                    self.fail_at(IoErrorKind::AlreadyExists)
                }
            },
            (Stage::Exists, Event::Flag(exists)) | (Stage::SymlinkExists, Event::Flag(exists)) => {
                if exists {
                    let path = self.path.clone();
                    self.stage = Stage::RemoveFile;
                    Step::Do(Op::RemoveFile { path })
                } else {
                    self.create_step()
                }
            },
            (Stage::RemoveFile, Event::Done) => self.create_step(),
            (Stage::RemoveFile, Event::Failed(kind)) => self.fail_at(kind),
            (Stage::Write, Event::Done) => self.settle(0),
            (Stage::Write, Event::Failed(kind)) => self.fail_at(kind),
            (Stage::RemoveXattrs, Event::Done) => self.settle(1),
            (Stage::RemoveXattrs, Event::Failed(kind)) => self.fail(Error::Io(kind)),
            (Stage::AccessTime, Event::Time(atime)) => {
                let path = self.path.clone();
                self.stage = Stage::SetTimes;
                Step::Do(Op::SetTimes { path, atime, mtime: epoch() })
            },
            (Stage::AccessTime, Event::Failed(kind)) => self.fail(Error::Io(kind)),
            (Stage::SetTimes, Event::Done) => self.settle(2),
            (Stage::SetTimes, Event::Failed(kind)) => self.fail(Error::Io(kind)),
            (Stage::SetParentTimes, Event::Done) => {
                self.stage = Stage::Finished;
                Step::Finished(Ok(()))
            },
            (Stage::SetParentTimes, Event::Failed(kind)) => self.fail(Error::Io(kind)),
            _ => self.fail(Error::Io(IoErrorKind::Other)),
        }
    }
}

/// The path of `name` below `dst`, as `Path::join` of std makes it for the
/// platform that the library is built for.
pub uninterp spec fn joined_path(dst: Seq<char>, name: Seq<char>) -> Seq<char>;

/// The path without its last component, if it has one, as `Path::parent`
/// of std gives it.
pub uninterp spec fn parent_path(path: Seq<char>) -> Option<Seq<char>>;

/// The kinds of the components of `path`, in order, as `Path::components`
/// of std tells them apart.
pub uninterp spec fn component_kinds(path: Seq<char>) -> Seq<PathComponent>;

/// `Path::join` of std: the path of `name` below `dst`. It is taken on
/// trust that the result depends on the two texts alone; `joined_path` is
/// the name of that result.
#[verifier::external_body]
fn path_join(dst: &str, name: &str) -> (r: String)
    ensures
        r@ == joined_path(dst@, name@),
{
    std::path::Path::new(dst).join(name).to_string_lossy().into_owned()
}

/// `Path::parent` of std: the path without its last component, if it has
/// one. It is taken on trust that the result depends on the text alone;
/// `parent_path` is the name of that result.
#[verifier::external_body]
fn path_parent(path: &str) -> (r: Option<String>)
    ensures
        match r {
            Some(parent) => parent_path(path@) == Some(parent@),
            None => parent_path(path@) is None,
        },
{
    match std::path::Path::new(path).parent() {
        Some(parent) => Some(parent.to_string_lossy().into_owned()),
        None => None,
    }
}

/// `Path::components` of std: the kinds of the components of `path`, in
/// order. It is taken on trust that the result depends on the text alone;
/// `component_kinds` is the name of that result.
#[verifier::external_body]
fn path_components(path: &str) -> (r: Vec<PathComponent>)
    ensures
        r@ == component_kinds(path@),
{
    let mut kinds = Vec::new();
    for component in std::path::Path::new(path).components() {
        kinds.push(
            match component {
                std::path::Component::Prefix(_) => PathComponent::Prefix,
                std::path::Component::RootDir => PathComponent::RootDir,
                std::path::Component::CurDir => PathComponent::CurDir,
                std::path::Component::ParentDir => PathComponent::ParentDir,
                std::path::Component::Normal(_) => PathComponent::Normal,
            },
        );
    }
    kinds
}

/// Whether a path with these components may leave the place it is meant
/// for: it holds a prefix, the root directory or a parent directory.
pub open spec fn escapes(components: Seq<PathComponent>) -> bool {
    exists|i: int|
        0 <= i < components.len() && (components[i] == PathComponent::Prefix || components[i]
            == PathComponent::RootDir || components[i] == PathComponent::ParentDir)
}

/// Whether a path with these components may leave the place it is meant
/// for.
pub fn has_escape(components: &Vec<PathComponent>) -> (r: bool)
    ensures
        r == escapes(components@),
{
    let mut i: usize = 0;
    while i < components.len()
        invariant
            i <= components@.len(),
            forall|j: int|
                0 <= j < i ==> !(components@[j] == PathComponent::Prefix || components@[j]
                    == PathComponent::RootDir || components@[j] == PathComponent::ParentDir),
        decreases components@.len() - i,
    {
        match components[i] {
            PathComponent::Prefix | PathComponent::RootDir | PathComponent::ParentDir => {
                return true;
            },
            _ => {},
        }
        i += 1;
    }
    false
}

impl Unpack {
    /// Begins to unpack `entry` at `path`, whose components are
    /// `components` and whose parent directory is `parent`. A path that may
    /// leave its place is refused with `InvalidPathComponent` before
    /// anything is done. The root entry has no parent to look after.
    pub fn new(
        entry: &Entry,
        path: String,
        parent: Option<String>,
        components: &Vec<PathComponent>,
    ) -> (r: Result<Unpack, Error>)
        ensures
            match r {
                Err(e) => escapes(components@) && e@ == (ErrorView::InvalidPathComponent {
                    path: path@,
                }),
                Ok(unpack) => !escapes(components@) && unpack@ == (UnpackView {
                    kind: entry@.kind,
                    path: path@,
                    parent: match parent {
                        Some(p) => if entry@.name.len() == 0 {
                            None
                        } else {
                            Some(p@)
                        },
                        None => None,
                    },
                    remove_xattrs: entry.remove_xattrs(),
                    canonicalize_mtime: entry.canonicalize_mtime(),
                    stage: Stage::Begin,
                    parent_atime: None,
                }),
            },
    {
        if has_escape(components) {
            return Err(Error::InvalidPathComponent { path });
        }
        let parent = if entry.name().is_empty() {
            None
        } else {
            parent
        };
        let (canonicalize_mtime, remove_xattrs) = entry.settings();
        Ok(
            Unpack {
                kind: entry.kind().duplicate(),
                path,
                parent,
                remove_xattrs,
                canonicalize_mtime,
                stage: Stage::Begin,
                parent_atime: None,
            },
        )
    }
}

/// Where an entry with the path `name` below the archive's root goes
/// below `dst`: to `dst` itself for the root, else to `dst` joined with
/// `name`.
pub open spec fn destination(dst: Seq<char>, name: Seq<char>) -> Seq<char> {
    if name.len() == 0 {
        dst
    } else {
        joined_path(dst, name)
    }
}

/// How unpacking `entry` below `dst` begins: with nothing done yet, or
/// not at all where the entry's destination may leave its place.
pub open spec fn unpack_start(
    entry: EntryView,
    canonicalize_mtime: bool,
    remove_xattrs: bool,
    dst: Seq<char>,
) -> Result<UnpackView, ErrorView> {
    let path = destination(dst, entry.name);
    if escapes(component_kinds(path)) {
        Err(ErrorView::InvalidPathComponent { path })
    } else {
        Ok(
            UnpackView {
                kind: entry.kind,
                path,
                parent: if entry.name.len() == 0 {
                    None
                } else {
                    parent_path(path)
                },
                remove_xattrs,
                canonicalize_mtime,
                stage: Stage::Begin,
                parent_atime: None,
            },
        )
    }
}

impl Entry {
    /// Begins to unpack the entry below `dst`: at `dst` itself for the
    /// root, else at `dst` joined with the entry's path. Where that path
    /// holds a prefix, the root directory or a parent directory, the entry
    /// is refused with `InvalidPathComponent`.
    pub fn unpack_in(&self, dst: &str) -> (r: Result<Unpack, Error>)
        ensures
            match unpack_start(self@, self.canonicalize_mtime(), self.remove_xattrs(), dst@) {
                Ok(start) => r matches Ok(unpack) && unpack@ == start,
                Err(e) => r matches Err(x) && x@ == e,
            },
    {
        let path = if self.name().is_empty() {
            dst.to_owned()
        } else {
            path_join(dst, self.name())
        };
        let components = path_components(path.as_str());
        let parent = path_parent(path.as_str());
        Unpack::new(self, path, parent, &components)
    }
}

/// A whole archive that is being unpacked below a destination, entry by
/// entry in the order in which they are read.
pub struct Unpacker<'a> {
    entries: Entries<'a>,
    dst: String,
    current: Option<Unpack>,
    finished: bool,
}

impl<'a> Unpacker<'a> {
    /// What is still to be read: the entries that are not yet unpacked, but
    /// for the one that is being unpacked.
    pub closed spec fn remaining(&self) -> Trace {
        self.entries.remaining()
    }

    /// The entry that is being unpacked, if any.
    pub closed spec fn current(&self) -> Option<UnpackView> {
        match self.current {
            Some(unpack) => Some(unpack@),
            None => None,
        }
    }

    /// The destination.
    pub closed spec fn dst(&self) -> Seq<char> {
        self.dst@
    }

    /// Whether unpacking has ended.
    pub closed spec fn finished(&self) -> bool {
        self.finished
    }

    /// The settings that the entries take along.
    pub closed spec fn settings(&self) -> (bool, bool) {
        (self.entries.canonicalize_mtime(), self.entries.remove_xattrs())
    }

    /// `self` but for the entry that is being unpacked and what is still to
    /// be read.
    pub open spec fn goes_on_from(&self, before: &Self) -> bool {
        &&& self.dst() == before.dst()
        &&& self.settings() == before.settings()
    }

    /// Takes the outcome of the operation that was asked for last (`Start`
    /// at first) and says what comes next. While an entry is being
    /// unpacked, that is what the entry asks for. Once it is done, the next
    /// entry is read and begun. Unpacking ends with the first error, of
    /// reading or of unpacking, and without one when the last entry is
    /// done.
    pub fn step(&mut self, event: Event) -> (step: Step)
        ensures
            final(self).goes_on_from(old(self)),
            old(self).finished() ==> step@ == StepView::Finished(
                Err(ErrorView::Io(IoErrorKind::Other)),
            ) && final(self).finished(),
            !old(self).finished() ==> match old(self).current() {
                Some(unpack) if !(unpack.transition(event).1 == StepView::Finished(Ok(()))) => {
                    &&& step@ == unpack.transition(event).1
                    &&& final(self).current() == Some(unpack.transition(event).0)
                    &&& final(self).remaining() == old(self).remaining()
                    &&& final(self).finished() == (step@ is Finished)
                },
                None if event != Event::Start => {
                    &&& step@ == StepView::Finished(Err(ErrorView::Io(IoErrorKind::Other)))
                    &&& final(self).finished()
                },
                _ => {
                    let rest = old(self).remaining();
                    if rest.entries.len() == 0 {
                        &&& step@ == StepView::Finished(
                            match rest.end {
                                Ok(_) => Ok(()),
                                Err(e) => Err(e),
                            },
                        )
                        &&& final(self).finished()
                    } else {
                        match unpack_start(
                            rest.entries[0],
                            old(self).settings().0,
                            old(self).settings().1,
                            old(self).dst(),
                        ) {
                            Err(e) => step@ == StepView::Finished(Err(e)) && final(self).finished(),
                            Ok(start) => {
                                &&& step@ == start.transition(Event::Start).1
                                &&& step@ is Do
                                &&& final(self).current() == Some(start.transition(Event::Start).0)
                                &&& final(self).remaining() == rest.rest()
                                &&& !final(self).finished()
                            },
                        }
                    }
                },
            },
    {
        if self.finished {
            return Step::Finished(Err(Error::Io(IoErrorKind::Other)));
        }
        match self.current.take() {
            Some(mut unpack) => {
                match unpack.step(event) {
                    Step::Finished(Ok(())) => {},
                    Step::Finished(Err(e)) => {
                        self.current = Some(unpack);
                        self.finished = true;
                        return Step::Finished(Err(e));
                    },
                    Step::Do(op) => {
                        self.current = Some(unpack);
                        return Step::Do(op);
                    },
                }
            },
            None => {
                match event {
                    Event::Start => {},
                    _ => {
                        self.finished = true;
                        return Step::Finished(Err(Error::Io(IoErrorKind::Other)));
                    },
                }
            },
        }
        match self.entries.next() {
            None => {
                self.finished = true;
                Step::Finished(Ok(()))
            },
            Some(Err(e)) => {
                self.finished = true;
                Step::Finished(Err(e))
            },
            Some(Ok(entry)) => {
                match entry.unpack_in(self.dst.as_str()) {
                    Err(e) => {
                        self.finished = true;
                        Step::Finished(Err(e))
                    },
                    Ok(mut unpack) => {
                        let ghost start = unpack@;
                        let step = unpack.step(Event::Start);
                        assert(start.transition(Event::Start) == (unpack@, step@));
                        self.current = Some(unpack);
                        step
                    },
                }
            },
        }
    }
}

impl Archive {
    /// Begins to unpack the whole archive below `dst`: reads the magic text
    /// as `entries` does, and fails as it does.
    pub fn unpack<'a>(&'a mut self, dst: &str) -> (r: Result<Unpacker<'a>, Error>)
        ensures
            old(self).position() != 0 ==> (r matches Err(e) && e@ == ErrorView::GetEntriesAfterRead),
            old(self).position() == 0 ==> match archive_head(old(self).bytes()) {
                Err(e) => r matches Err(x) && x@ == e,
                Ok(_) => {
                    &&& r matches Ok(unpacker)
                    &&& unpacker.remaining() == archive_trace(old(self).bytes())
                    &&& unpacker.current() is None
                    &&& !unpacker.finished()
                    &&& unpacker.dst() == dst@
                    &&& unpacker.settings() == (
                        old(self).canonicalize_mtime(),
                        old(self).remove_xattrs(),
                    )
                },
            },
    {
        match self.entries() {
            Ok(entries) => Ok(
                Unpacker { entries, dst: dst.to_owned(), current: None, finished: false },
            ),
            Err(e) => Err(e),
        }
    }
}

} // verus!
