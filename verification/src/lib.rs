//! Reading and writing of Nix archives (NAR): a canonical, deterministic
//! byte representation of a file, a symbolic link or a directory tree.
//!
//! `ser` turns a tree into bytes, `de` reads the entries of a tree back out
//! of bytes, and `unpack` says what is to be done to the file system to
//! put an entry in its place. `frame`, `tag`, `node` and `grammar` say what
//! the bytes are and what reading makes of them. The remaining modules
//! hold what is proved of writing and reading together: that reading
//! gives back what was written, that the children of a directory are
//! written in the order of their names, that the bytes do not depend on
//! the order in which a tree holds them, and that padding which is not
//! zero is refused.

pub mod canonical;
pub mod de;
pub mod error;
pub mod frame;
pub mod grammar;
pub mod node;
pub mod order;
pub mod padding;
pub mod roundtrip;
pub mod ser;
pub mod tag;
pub mod text;
pub mod unpack;

pub use self::de::Archive;
pub use self::ser::{to_vec, to_writer};
