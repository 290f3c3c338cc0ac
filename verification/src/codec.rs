//! The persisted form of a snapshot collection: a deterministic, versionless
//! little-endian binary layout, with encoding and decoding verified to round
//! trip exactly.
//!
//! Layout: an entry count as eight bytes, then per entry the key length as
//! eight bytes, the key bytes, and the fixed 52-byte state (length, seconds,
//! nanoseconds, four digest words).

use vstd::prelude::*;

use vstd::bytes::lemma_auto_spec_u32_to_from_le_bytes;
use vstd::bytes::lemma_auto_spec_u64_to_from_le_bytes;
use vstd::bytes::spec_u32_from_le_bytes;
use vstd::bytes::spec_u32_to_le_bytes;
use vstd::bytes::spec_u64_from_le_bytes;
use vstd::bytes::spec_u64_to_le_bytes;

use crate::state::Digest;
use crate::state::FileState;
use crate::state::Timestamp;

verus! {

/// One past the largest count or key length the layout can hold.
pub open spec fn count_limit() -> int {
    0x1_0000_0000_0000_0000
}

/// The 52-byte encoding of one recorded state.
pub open spec fn enc_state(s: FileState) -> Seq<u8> {
    spec_u64_to_le_bytes(s.len) + spec_u64_to_le_bytes(s.modified.secs) + spec_u32_to_le_bytes(
        s.modified.nanos,
    ) + spec_u64_to_le_bytes(s.digest.w0) + spec_u64_to_le_bytes(s.digest.w1)
        + spec_u64_to_le_bytes(s.digest.w2) + spec_u64_to_le_bytes(s.digest.w3)
}

/// The encoding of one entry: key length, key bytes, state.
pub open spec fn enc_entry(e: (Seq<u8>, FileState)) -> Seq<u8> {
    spec_u64_to_le_bytes(e.0.len() as u64) + e.0 + enc_state(e.1)
}

/// The concatenated encodings of a list of entries.
pub open spec fn enc_entries(es: Seq<(Seq<u8>, FileState)>) -> Seq<u8>
    decreases es.len(),
{
    if es.len() == 0 {
        Seq::empty()
    } else {
        enc_entry(es[0]) + enc_entries(es.drop_first())
    }
}

/// The full encoding: entry count, then the entries.
pub open spec fn spec_encode(es: Seq<(Seq<u8>, FileState)>) -> Seq<u8> {
    spec_u64_to_le_bytes(es.len() as u64) + enc_entries(es)
}

/// The eight-byte word at `pos`.
pub open spec fn dec_u64_at(b: Seq<u8>, pos: int) -> u64 {
    spec_u64_from_le_bytes(b.subrange(pos, pos + 8))
}

/// The four-byte word at `pos`.
pub open spec fn dec_u32_at(b: Seq<u8>, pos: int) -> u32 {
    spec_u32_from_le_bytes(b.subrange(pos, pos + 4))
}

/// The 52-byte state starting at `pos`.
pub open spec fn dec_state_at(b: Seq<u8>, pos: int) -> FileState {
    FileState {
        len: dec_u64_at(b, pos),
        modified: Timestamp { secs: dec_u64_at(b, pos + 8), nanos: dec_u32_at(b, pos + 16) },
        digest: Digest {
            w0: dec_u64_at(b, pos + 20),
            w1: dec_u64_at(b, pos + 28),
            w2: dec_u64_at(b, pos + 36),
            w3: dec_u64_at(b, pos + 44),
        },
    }
}

/// The entry starting at `pos`, and the position after it; `None` when the
/// bytes do not reach.
pub open spec fn dec_entry_at(b: Seq<u8>, pos: int) -> Option<((Seq<u8>, FileState), int)> {
    if pos + 8 > b.len() {
        None
    } else {
        let klen = dec_u64_at(b, pos) as int;
        if pos + 8 + klen + 52 > b.len() {
            None
        } else {
            Some(
                (
                    (b.subrange(pos + 8, pos + 8 + klen), dec_state_at(b, pos + 8 + klen)),
                    pos + 8 + klen + 52,
                ),
            )
        }
    }
}

/// `n` entries starting at `pos`, and the position after them.
pub open spec fn dec_entries_at(b: Seq<u8>, pos: int, n: nat) -> Option<
    (Seq<(Seq<u8>, FileState)>, int),
>
    decreases n,
{
    if n == 0 {
        Some((Seq::empty(), pos))
    } else {
        match dec_entry_at(b, pos) {
            None => None,
            Some((e, p2)) => match dec_entries_at(b, p2, (n - 1) as nat) {
                None => None,
                Some((es, p3)) => Some((seq![e] + es, p3)),
            },
        }
    }
}

/// The entry list a byte string denotes: its count, then exactly that many
/// entries, consuming every byte. `None` when the bytes are truncated,
/// overlong, or otherwise not of the layout's shape.
pub open spec fn spec_decode_raw(b: Seq<u8>) -> Option<Seq<(Seq<u8>, FileState)>> {
    if b.len() < 8 {
        None
    } else {
        match dec_entries_at(b, 8, dec_u64_at(b, 0) as nat) {
            None => None,
            Some((es, p)) => if p == b.len() {
                Some(es)
            } else {
                None
            },
        }
    }
}

/// Why a persisted byte string could not be restored.
#[derive(Clone, Copy, Debug, PartialEq, Eq, Structural)]
pub enum DecodeError {
    /// The bytes are truncated, overlong, or not of the layout's shape.
    Malformed,
    /// The bytes parse, but two entries carry the same key.
    Duplicate,
}

/// A parse result with a list of already-parsed entries put in front.
pub open spec fn opt_prepend(
    pre: Seq<(Seq<u8>, FileState)>,
    o: Option<(Seq<(Seq<u8>, FileState)>, int)>,
) -> Option<(Seq<(Seq<u8>, FileState)>, int)> {
    match o {
        None => None,
        Some((es, p)) => Some((pre + es, p)),
    }
}

/// Encoding one more entry appends its encoding.
pub proof fn lemma_enc_entries_push(es: Seq<(Seq<u8>, FileState)>, e: (Seq<u8>, FileState))
    ensures
        enc_entries(es.push(e)) == enc_entries(es) + enc_entry(e),
    decreases es.len(),
{
    if es.len() == 0 {
        assert(es.push(e)[0] == e);
        assert(es.push(e).drop_first() =~= Seq::<(Seq<u8>, FileState)>::empty());
        assert(enc_entries(es.push(e)) == enc_entry(e) + enc_entries(
            Seq::<(Seq<u8>, FileState)>::empty(),
        ));
        assert(enc_entry(e) + Seq::<u8>::empty() =~= Seq::<u8>::empty() + enc_entry(e));
    } else {
        assert(es.push(e)[0] == es[0]);
        assert(es.push(e).drop_first() =~= es.drop_first().push(e));
        lemma_enc_entries_push(es.drop_first(), e);
        assert(enc_entry(es[0]) + (enc_entries(es.drop_first()) + enc_entry(e)) =~= (enc_entry(
            es[0],
        ) + enc_entries(es.drop_first())) + enc_entry(e));
    }
}

/// Append the eight-byte encoding of `x`.
pub(crate) fn push_u64(out: &mut Vec<u8>, x: u64)
    ensures
        final(out)@ == old(out)@ + spec_u64_to_le_bytes(x),
{
    let mut b = vstd::bytes::u64_to_le_bytes(x);
    out.append(&mut b);
}

/// Append the four-byte encoding of `x`.
pub(crate) fn push_u32(out: &mut Vec<u8>, x: u32)
    ensures
        final(out)@ == old(out)@ + spec_u32_to_le_bytes(x),
{
    let mut b = vstd::bytes::u32_to_le_bytes(x);
    out.append(&mut b);
}

/// Append a copy of `b`.
pub(crate) fn push_bytes(out: &mut Vec<u8>, b: &Vec<u8>)
    ensures
        final(out)@ == old(out)@ + b@,
{
    let ghost base = out@;
    let mut i: usize = 0;
    while i < b.len()
        invariant
            i <= b@.len(),
            out@ == base + b@.take(i as int),
        decreases b@.len() - i,
    {
        out.push(b[i]);
        proof {
            assert(b@.take(i as int + 1) =~= b@.take(i as int).push(b@[i as int]));
            assert(base + b@.take(i as int).push(b@[i as int]) =~= (base + b@.take(
                i as int,
            )).push(b@[i as int]));
        }
        i = i + 1;
    }
    proof {
        assert(b@.take(b@.len() as int) =~= b@);
    }
}

/// The eight-byte word at `pos`, read from the byte string.
pub(crate) fn read_u64_at(b: &Vec<u8>, pos: usize) -> (r: u64)
    requires
        pos + 8 <= b@.len(),
    ensures
        r == dec_u64_at(b@, pos as int),
{
    let n = b.len();
    assert(pos + 8 <= n);
    let s = vstd::slice::slice_subrange(b.as_slice(), pos, pos + 8);
    vstd::bytes::u64_from_le_bytes(s)
}

/// The four-byte word at `pos`, read from the byte string.
pub(crate) fn read_u32_at(b: &Vec<u8>, pos: usize) -> (r: u32)
    requires
        pos + 4 <= b@.len(),
    ensures
        r == dec_u32_at(b@, pos as int),
{
    let n = b.len();
    assert(pos + 4 <= n);
    let s = vstd::slice::slice_subrange(b.as_slice(), pos, pos + 4);
    vstd::bytes::u32_from_le_bytes(s)
}

/// An owned copy of the bytes in `[start, end)`.
pub(crate) fn copy_range(b: &Vec<u8>, start: usize, end: usize) -> (r: Vec<u8>)
    requires
        start <= end <= b@.len(),
    ensures
        r@ == b@.subrange(start as int, end as int),
{
    let mut r: Vec<u8> = Vec::new();
    let mut i: usize = start;
    while i < end
        invariant
            start <= i <= end <= b@.len(),
            r@ == b@.subrange(start as int, i as int),
        decreases end - i,
    {
        r.push(b[i]);
        proof {
            assert(b@.subrange(start as int, i as int + 1) =~= b@.subrange(
                start as int,
                i as int,
            ).push(b@[i as int]));
        }
        i = i + 1;
    }
    r
}

/// Splitting a known concatenation at `pos` recovers both halves.
proof fn lemma_subrange_concat(b: Seq<u8>, pos: int, x: Seq<u8>, y: Seq<u8>)
    requires
        0 <= pos,
        pos + x.len() + y.len() <= b.len(),
        b.subrange(pos, pos + x.len() + y.len()) == x + y,
    ensures
        b.subrange(pos, pos + x.len()) == x,
        b.subrange(pos + x.len(), pos + x.len() + y.len()) == y,
{
    let whole = b.subrange(pos, pos + x.len() + y.len());
    assert forall|i: int| 0 <= i < x.len() implies b.subrange(pos, pos + x.len())[i] == x[i] by {
        assert(whole[i] == (x + y)[i]);
    }
    assert(b.subrange(pos, pos + x.len()) =~= x);
    assert forall|i: int| 0 <= i < y.len() implies b.subrange(
        pos + x.len(),
        pos + x.len() + y.len(),
    )[i] == y[i] by {
        assert(whole[x.len() + i] == (x + y)[x.len() + i]);
    }
    assert(b.subrange(pos + x.len(), pos + x.len() + y.len()) =~= y);
}

/// An encoded state at `pos` decodes to the state it encodes.
proof fn lemma_dec_state(b: Seq<u8>, pos: int, s: FileState)
    requires
        0 <= pos,
        pos + 52 <= b.len(),
        b.subrange(pos, pos + 52) == enc_state(s),
    ensures
        dec_state_at(b, pos) == s,
{
    lemma_auto_spec_u64_to_from_le_bytes();
    lemma_auto_spec_u32_to_from_le_bytes();
    let p0 = spec_u64_to_le_bytes(s.len);
    let p1 = spec_u64_to_le_bytes(s.modified.secs);
    let p2 = spec_u32_to_le_bytes(s.modified.nanos);
    let p3 = spec_u64_to_le_bytes(s.digest.w0);
    let p4 = spec_u64_to_le_bytes(s.digest.w1);
    let p5 = spec_u64_to_le_bytes(s.digest.w2);
    let p6 = spec_u64_to_le_bytes(s.digest.w3);
    assert(b.subrange(pos, pos + 52) == p0 + (p1 + p2 + p3 + p4 + p5 + p6)) by {
        assert(p0 + p1 + p2 + p3 + p4 + p5 + p6 =~= p0 + (p1 + p2 + p3 + p4 + p5 + p6));
    }
    lemma_subrange_concat(b, pos, p0, p1 + p2 + p3 + p4 + p5 + p6);
    assert(p1 + p2 + p3 + p4 + p5 + p6 =~= p1 + (p2 + p3 + p4 + p5 + p6));
    lemma_subrange_concat(b, pos + 8, p1, p2 + p3 + p4 + p5 + p6);
    assert(p2 + p3 + p4 + p5 + p6 =~= p2 + (p3 + p4 + p5 + p6));
    lemma_subrange_concat(b, pos + 16, p2, p3 + p4 + p5 + p6);
    assert(p3 + p4 + p5 + p6 =~= p3 + (p4 + p5 + p6));
    lemma_subrange_concat(b, pos + 20, p3, p4 + p5 + p6);
    assert(p4 + p5 + p6 =~= p4 + (p5 + p6));
    lemma_subrange_concat(b, pos + 28, p4, p5 + p6);
    lemma_subrange_concat(b, pos + 36, p5, p6);
}

/// A list of encoded entries at `pos` decodes to the entries it encodes,
/// ending exactly after them.
proof fn lemma_dec_entries(b: Seq<u8>, pos: int, es: Seq<(Seq<u8>, FileState)>)
    requires
        0 <= pos,
        pos + enc_entries(es).len() <= b.len(),
        b.subrange(pos, pos + enc_entries(es).len()) == enc_entries(es),
        forall|i: int| 0 <= i < es.len() ==> #[trigger] es[i].0.len() < count_limit(),
    ensures
        dec_entries_at(b, pos, es.len() as nat) == Some((es, pos + enc_entries(es).len())),
    decreases es.len(),
{
    lemma_auto_spec_u64_to_from_le_bytes();
    lemma_auto_spec_u32_to_from_le_bytes();
    if es.len() > 0 {
        let e = es[0];
        let rest = es.drop_first();
        let klen = e.0.len() as int;
        assert(es[0].0.len() < count_limit());
        let head = enc_entry(e);
        let tail = enc_entries(rest);
        lemma_subrange_concat(b, pos, head, tail);
        // split the head into its three pieces
        let kl = spec_u64_to_le_bytes(e.0.len() as u64);
        assert(head == kl + (e.0 + enc_state(e.1))) by {
            assert(kl + e.0 + enc_state(e.1) =~= kl + (e.0 + enc_state(e.1)));
        }
        lemma_subrange_concat(b, pos, kl, e.0 + enc_state(e.1));
        lemma_subrange_concat(b, pos + 8, e.0, enc_state(e.1));
        assert(enc_state(e.1).len() == 52);
        assert(dec_u64_at(b, pos) == e.0.len() as u64);
        assert(dec_u64_at(b, pos) as int == klen);
        lemma_dec_state(b, pos + 8 + klen, e.1);
        assert(dec_entry_at(b, pos) == Some::<((Seq<u8>, FileState), int)>(
            ((e.0, e.1), pos + 8 + klen + 52),
        ));
        let p2 = pos + 8 + klen + 52;
        assert(head.len() == 8 + klen + 52);
        assert forall|i: int| 0 <= i < rest.len() implies #[trigger] rest[i].0.len()
            < count_limit() by {
            assert(es[i + 1].0.len() < count_limit());
        }
        lemma_dec_entries(b, p2, rest);
        assert(seq![(e.0, e.1)] + rest =~= es);
    }
}

/// Round trip: decoding any encoded entry list yields exactly that list.
pub proof fn lemma_decode_encode(es: Seq<(Seq<u8>, FileState)>)
    requires
        es.len() < count_limit(),
        forall|i: int| 0 <= i < es.len() ==> #[trigger] es[i].0.len() < count_limit(),
    ensures
        spec_decode_raw(spec_encode(es)) == Some(es),
{
    lemma_auto_spec_u64_to_from_le_bytes();
    let b = spec_encode(es);
    let cnt = spec_u64_to_le_bytes(es.len() as u64);
    assert(b.subrange(0, 0 + cnt.len() as int + enc_entries(es).len() as int) == cnt + enc_entries(
        es,
    )) by {
        assert(b.len() == cnt.len() + enc_entries(es).len());
        assert(b.subrange(0, b.len() as int) =~= b);
    }
    lemma_subrange_concat(b, 0, cnt, enc_entries(es));
    assert(dec_u64_at(b, 0) == es.len() as u64);
    lemma_dec_entries(b, 8, es);
}

} // verus!
