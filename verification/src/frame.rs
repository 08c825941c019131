//! Framing: every string on the wire is a little-endian 64-bit length, the
//! bytes themselves, and zero bytes up to the next multiple of eight.

use vstd::prelude::*;
use crate::error::{Error, ErrorView, IoErrorKind};

verus! {

/// The text that every archive begins with, `nix-archive-1`.
pub const NIX_VERSION_MAGIC: [u8; 13] = [
    0x6eu8, 0x69u8, 0x78u8, 0x2du8, 0x61u8, 0x72u8, 0x63u8, 0x68u8, 0x69u8, 0x76u8, 0x65u8,
    0x2du8, 0x31u8,
];

/// Every framed string is padded to a multiple of this many bytes.
pub const PAD_LEN: usize = 8;

/// The bytes of the text that every archive begins with.
pub open spec fn magic() -> Seq<u8> {
    NIX_VERSION_MAGIC@
}

/// The number of zero bytes that follow a payload of `len` bytes.
pub open spec fn pad_len(len: nat) -> nat {
    ((8 - len % 8) % 8) as nat
}

/// The `width` low-order bytes of `x`, least significant first.
pub open spec fn le_bytes(x: nat, width: nat) -> Seq<u8>
    decreases width,
{
    if width == 0 {
        Seq::empty()
    } else {
        seq![(x % 256) as u8] + le_bytes(x / 256, (width - 1) as nat)
    }
}

/// The number that `s` spells, least significant byte first.
pub open spec fn le_value(s: Seq<u8>) -> nat
    decreases s.len(),
{
    if s.len() == 0 {
        0
    } else {
        s[0] as nat + 256 * le_value(s.skip(1))
    }
}

/// `n` zero bytes.
pub open spec fn zeros(n: nat) -> Seq<u8> {
    Seq::new(n, |i: int| 0u8)
}

/// A payload as it stands on the wire: length, bytes, padding.
#[verifier::opaque]
pub open spec fn frame(payload: Seq<u8>) -> Seq<u8> {
    le_bytes(payload.len(), 8) + payload + zeros(pad_len(payload.len()))
}

/// The length of `le_bytes(x, width)` is `width`.
pub proof fn lemma_le_bytes_len(x: nat, width: nat)
    ensures
        le_bytes(x, width).len() == width,
    decreases width,
{
    if width > 0 {
        lemma_le_bytes_len(x / 256, (width - 1) as nat);
    }
}

/// A frame is the eight length bytes, the payload and the padding, and its
/// length is a multiple of eight.
pub proof fn lemma_frame_len(payload: Seq<u8>)
    ensures
        frame(payload).len() == 8 + payload.len() + pad_len(payload.len()),
        (payload.len() + pad_len(payload.len())) % 8 == 0,
        frame(payload).len() % 8 == 0,
        pad_len(payload.len()) < 8,
{
    reveal(frame);
    lemma_le_bytes_len(payload.len(), 8);
}

/// Appends the eight bytes of `x`, least significant first.
pub fn write_u64_le(writer: &mut Vec<u8>, x: u64)
    ensures
        final(writer)@ == old(writer)@ + le_bytes(x as nat, 8),
{
    let mut rest: u64 = x;
    let mut i: usize = 0;
    while i < 8
        invariant
            i <= 8,
            writer@ + le_bytes(rest as nat, (8 - i) as nat) == old(writer)@ + le_bytes(x as nat, 8),
        decreases 8 - i,
    {
        let ghost before = writer@;
        writer.push((rest % 256) as u8);
        proof {
            let tail = le_bytes((rest / 256) as nat, (8 - i - 1) as nat);
            assert(le_bytes(rest as nat, (8 - i) as nat) == seq![(rest % 256) as u8] + tail);
            assert(before.push((rest % 256) as u8) + tail == before + (seq![(rest % 256) as u8]
                + tail));
        }
        rest = rest / 256;
        i += 1;
    }
    assert(le_bytes(rest as nat, 0) == Seq::<u8>::empty());
    assert(writer@ + Seq::<u8>::empty() == writer@);
}

/// Appends `bytes` as they are.
pub fn write_all(writer: &mut Vec<u8>, bytes: &[u8])
    ensures
        final(writer)@ == old(writer)@ + bytes@,
{
    writer.extend_from_slice(bytes);
    assert(writer@ =~= old(writer)@ + bytes@);
}

/// Appends `n` zero bytes.
pub fn write_zeros(writer: &mut Vec<u8>, n: usize)
    ensures
        final(writer)@ == old(writer)@ + zeros(n as nat),
{
    let mut i: usize = 0;
    while i < n
        invariant
            i <= n,
            writer@ == old(writer)@ + zeros(i as nat),
        decreases n - i,
    {
        writer.push(0u8);
        i += 1;
        assert(writer@ =~= old(writer)@ + zeros(i as nat));
    }
}

/// Writes `bytes` framed: the length as eight little-endian bytes, the bytes,
/// and zero bytes up to the next multiple of eight (none where the length is
/// one already). Writing to a buffer in memory cannot fail.
pub fn write_padded(writer: &mut Vec<u8>, bytes: &[u8]) -> (r: Result<(), Error>)
    ensures
        r is Ok,
        final(writer)@ == old(writer)@ + frame(bytes@),
{
    let len: u64 = bytes.len() as u64;
    write_u64_le(writer, len);
    write_all(writer, bytes);
    let remainder: usize = bytes.len() % PAD_LEN;
    if remainder > 0 {
        write_zeros(writer, PAD_LEN - remainder);
    }
    proof {
        reveal(frame);
        assert(zeros(0) =~= Seq::<u8>::empty());
        assert(writer@ =~= old(writer)@ + frame(bytes@));
    }
    Ok(())
}

/// Writes the contents of a file framed, as `write_padded` does, where the
/// length `len` was announced beforehand. Contents of another length are
/// refused with `InvalidData` and nothing is written.
pub fn write_padded_from_reader(writer: &mut Vec<u8>, reader: &[u8], len: u64) -> (r: Result<
    (),
    Error,
>)
    ensures
        r is Ok <==> reader@.len() == len,
        r is Ok ==> final(writer)@ == old(writer)@ + frame(reader@),
        r matches Err(e) ==> e@ == ErrorView::Io(IoErrorKind::InvalidData)
            && final(writer)@ == old(writer)@,
{
    if reader.len() as u64 != len {
        return Err(Error::Io(IoErrorKind::InvalidData));
    }
    write_padded(writer, reader)
}

/// What reading one frame of `s` at `pos` gives: the payload and the
/// position behind its padding; `UnexpectedEof` where `s` ends inside the
/// frame; `BadPadding` where a padding byte is not zero.
#[verifier::opaque]
pub open spec fn read_frame(s: Seq<u8>, pos: int) -> Result<(Seq<u8>, int), ErrorView> {
    if pos + 8 > s.len() {
        Err(ErrorView::Io(IoErrorKind::UnexpectedEof))
    } else {
        let len = le_value(s.subrange(pos, pos + 8));
        let end = pos + 8 + len + pad_len(len);
        if end > s.len() {
            Err(ErrorView::Io(IoErrorKind::UnexpectedEof))
        } else if s.subrange(pos + 8 + len, end) != zeros(pad_len(len)) {
            Err(ErrorView::BadPadding)
        } else {
            Ok((s.subrange(pos + 8, pos + 8 + len), end))
        }
    }
}

/// Where reading stands behind the frame at `pos`, read or not: behind its
/// padding, or at the end of `s` where `s` ends inside the frame.
pub open spec fn frame_end(s: Seq<u8>, pos: int) -> int {
    if pos + 8 > s.len() {
        s.len() as int
    } else {
        let len = le_value(s.subrange(pos, pos + 8));
        let end = pos + 8 + len + pad_len(len);
        if end > s.len() {
            s.len() as int
        } else {
            end
        }
    }
}

/// The number that the eight bytes of `bytes` at `pos` spell, least
/// significant byte first.
pub fn read_u64_le(bytes: &[u8], pos: usize) -> (x: u64)
    requires
        pos + 8 <= bytes@.len(),
    ensures
        x as nat == le_value(bytes@.subrange(pos as int, pos + 8)),
{
    let b0: u64 = bytes[pos] as u64;
    let b1: u64 = bytes[pos + 1] as u64;
    let b2: u64 = bytes[pos + 2] as u64;
    let b3: u64 = bytes[pos + 3] as u64;
    let b4: u64 = bytes[pos + 4] as u64;
    let b5: u64 = bytes[pos + 5] as u64;
    let b6: u64 = bytes[pos + 6] as u64;
    let b7: u64 = bytes[pos + 7] as u64;
    let x7: u64 = b7;
    let x6: u64 = b6 + 256 * x7;
    let x5: u64 = b5 + 256 * x6;
    let x4: u64 = b4 + 256 * x5;
    let x3: u64 = b3 + 256 * x4;
    let x2: u64 = b2 + 256 * x3;
    let x1: u64 = b1 + 256 * x2;
    let x0: u64 = b0 + 256 * x1;
    proof {
        let s = bytes@.subrange(pos as int, pos + 8);
        assert(s.skip(8).len() == 0);
        assert(le_value(s.skip(8)) == 0);
        assert(s.skip(7).skip(1) =~= s.skip(8));
        assert(le_value(s.skip(7)) == x7);
        assert(s.skip(6).skip(1) =~= s.skip(7));
        assert(le_value(s.skip(6)) == x6);
        assert(s.skip(5).skip(1) =~= s.skip(6));
        assert(le_value(s.skip(5)) == x5);
        assert(s.skip(4).skip(1) =~= s.skip(5));
        assert(le_value(s.skip(4)) == x4);
        assert(s.skip(3).skip(1) =~= s.skip(4));
        assert(le_value(s.skip(3)) == x3);
        assert(s.skip(2).skip(1) =~= s.skip(3));
        assert(le_value(s.skip(2)) == x2);
        assert(s.skip(1).skip(1) =~= s.skip(2));
        assert(le_value(s.skip(1)) == x1);
        assert(s.skip(0) =~= s);
        assert(s.skip(0).skip(1) =~= s.skip(1));
        assert(le_value(s) == x0);
    }
    x0
}

/// 256 to the power of `n`.
pub open spec fn pow256(n: nat) -> nat
    decreases n,
{
    if n == 0 {
        1
    } else {
        256 * pow256((n - 1) as nat)
    }
}

/// A number below `256^width` is what its `width` bytes spell.
pub proof fn lemma_le_roundtrip(x: nat, width: nat)
    requires
        x < pow256(width),
    ensures
        le_value(le_bytes(x, width)) == x,
    decreases width,
{
    if width > 0 {
        let rest = le_bytes(x / 256, (width - 1) as nat);
        let all = le_bytes(x, width);
        assert(all.skip(1) =~= rest);
        assert(all[0] == (x % 256) as u8);
        lemma_le_bytes_len(x, width);
        lemma_le_roundtrip(x / 256, (width - 1) as nat);
    }
}

/// The bytes `x` stand in `s` at `pos`.
pub open spec fn stands_at(s: Seq<u8>, pos: int, x: Seq<u8>) -> bool {
    0 <= pos && pos + x.len() <= s.len() && s.subrange(pos, pos + x.len()) == x
}

/// Where `a + b` stands, `a` stands, and `b` behind it.
pub proof fn lemma_stands_at_split(s: Seq<u8>, pos: int, a: Seq<u8>, b: Seq<u8>)
    requires
        stands_at(s, pos, a + b),
    ensures
        stands_at(s, pos, a),
        stands_at(s, pos + a.len(), b),
{
    let whole = s.subrange(pos, pos + (a + b).len());
    assert(s.subrange(pos, pos + a.len()) =~= whole.subrange(0, a.len() as int));
    assert((a + b).subrange(0, a.len() as int) =~= a);
    assert(s.subrange(pos + a.len(), pos + a.len() + b.len()) =~= whole.subrange(
        a.len() as int,
        (a + b).len() as int,
    ));
    assert((a + b).subrange(a.len() as int, (a + b).len() as int) =~= b);
}

/// Reading where a frame stands gives the frame's payload and ends behind
/// the frame.
pub proof fn lemma_read_frame(s: Seq<u8>, pos: int, payload: Seq<u8>)
    requires
        stands_at(s, pos, frame(payload)),
        payload.len() <= u64::MAX,
    ensures
        read_frame(s, pos) == Ok::<(Seq<u8>, int), ErrorView>(
            (payload, pos + frame(payload).len()),
        ),
        frame(payload).len() >= 8,
{
    reveal(frame);
    reveal(read_frame);
    let len = payload.len();
    let f = frame(payload);
    lemma_frame_len(payload);
    lemma_stands_at_split(s, pos, le_bytes(len, 8) + payload, zeros(pad_len(len)));
    lemma_stands_at_split(s, pos, le_bytes(len, 8), payload);
    lemma_le_bytes_len(len, 8);
    assert(pow256(8) == 0x1_0000_0000_0000_0000) by {
        reveal_with_fuel(pow256, 9);
    }
    lemma_le_roundtrip(len, 8);
    assert(s.subrange(pos, pos + 8) == le_bytes(len, 8));
    assert(s.subrange(pos + 8, pos + 8 + len) == payload);
    assert(s.subrange(pos + 8 + len, pos + 8 + len + pad_len(len)) == zeros(pad_len(len)));
}

/// A frame that is all there, but with a padding byte that is not zero,
/// is refused with `BadPadding`.
pub proof fn lemma_bad_padding(s: Seq<u8>, pos: int, k: int)
    requires
        0 <= pos,
        pos + 8 <= s.len(),
        ({
            let len = le_value(s.subrange(pos, pos + 8));
            &&& pos + 8 + len + pad_len(len) <= s.len()
            &&& pos + 8 + len <= k < pos + 8 + len + pad_len(len)
        }),
        s[k] != 0,
    ensures
        read_frame(s, pos) == Err::<(Seq<u8>, int), ErrorView>(ErrorView::BadPadding),
{
    reveal(read_frame);
    let len = le_value(s.subrange(pos, pos + 8));
    let padding = s.subrange(pos + 8 + len, pos + 8 + len + pad_len(len));
    assert(padding[k - (pos + 8 + len)] == s[k]);
    assert(zeros(pad_len(len))[k - (pos + 8 + len)] == 0u8);
}

} // verus!
