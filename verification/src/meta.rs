//! Sidecar metadata codec.
//!
//! Each cached file carries a `.cachemeta` sidecar holding the chunk vector:
//! a flat list, ordered by index, of each chunk's `index`, `offset`, `size`,
//! `accessed_at_secs` and `cached` flag. The per-chunk download guard is
//! runtime state and is not persisted. The encoding is one canonical byte
//! string per vector, so re-serialising a deserialised sidecar reproduces it
//! byte for byte; the reader accepts exactly that canonical form and rejects
//! everything else, leaving the caller to fall back to a cold chunk vector.

use vstd::prelude::*;

use crate::chunk::Chunk;
use crate::dec::{
    canonical_digits, digit_run_end, lemma_dec_digits_canonical, lemma_dec_value_of_digits,
    lemma_digit_run_end_at, parse_dec_at, push_dec_u64, spec_dec_digits, spec_dec_value,
};

verus! {

/// `{"index":`
pub open spec fn key_index() -> Seq<u8> {
    seq![123u8, 34u8, 105u8, 110u8, 100u8, 101u8, 120u8, 34u8, 58u8]
}

/// `,"offset":`
pub open spec fn key_offset() -> Seq<u8> {
    seq![44u8, 34u8, 111u8, 102u8, 102u8, 115u8, 101u8, 116u8, 34u8, 58u8]
}

/// `,"size":`
pub open spec fn key_size() -> Seq<u8> {
    seq![44u8, 34u8, 115u8, 105u8, 122u8, 101u8, 34u8, 58u8]
}

/// `,"accessed_at_secs":`
pub open spec fn key_accessed() -> Seq<u8> {
    seq![
        44u8,
        34u8,
        97u8,
        99u8,
        99u8,
        101u8,
        115u8,
        115u8,
        101u8,
        100u8,
        95u8,
        97u8,
        116u8,
        95u8,
        115u8,
        101u8,
        99u8,
        115u8,
        34u8,
        58u8,
    ]
}

/// `,"cached":`
pub open spec fn key_cached() -> Seq<u8> {
    seq![44u8, 34u8, 99u8, 97u8, 99u8, 104u8, 101u8, 100u8, 34u8, 58u8]
}

/// `true` / `false`
pub open spec fn spec_bool_bytes(b: bool) -> Seq<u8> {
    if b {
        seq![116u8, 114u8, 117u8, 101u8]
    } else {
        seq![102u8, 97u8, 108u8, 115u8, 101u8]
    }
}

/// Canonical encoding of one chunk record.
pub open spec fn spec_chunk_bytes(c: Chunk) -> Seq<u8> {
    key_index() + spec_dec_digits(c.index as int) + key_offset() + spec_dec_digits(c.offset as int)
        + key_size() + spec_dec_digits(c.size as int) + key_accessed() + spec_dec_digits(
        c.accessed_at_secs as int,
    ) + key_cached() + spec_bool_bytes(c.cached) + seq![125u8]
}

/// Encoding of the records from `i` on, each preceded by a separator, then
/// the closing bracket.
pub open spec fn spec_chunks_rest(chunks: Seq<Chunk>, i: int) -> Seq<u8>
    decreases chunks.len() - i,
{
    if i < 0 || i >= chunks.len() {
        seq![93u8]
    } else {
        seq![44u8] + spec_chunk_bytes(chunks[i]) + spec_chunks_rest(chunks, i + 1)
    }
}

/// Canonical encoding of a chunk vector.
pub open spec fn spec_chunks_bytes(chunks: Seq<Chunk>) -> Seq<u8> {
    if chunks.len() == 0 {
        seq![91u8, 93u8]
    } else {
        seq![91u8] + spec_chunk_bytes(chunks[0]) + spec_chunks_rest(chunks, 1)
    }
}

/// Encoding of the first `i` records, still open: the bracket, then records
/// `0 .. i` with separators between them.
pub open spec fn spec_chunks_prefix(chunks: Seq<Chunk>, i: int) -> Seq<u8>
    decreases i,
{
    if i <= 0 {
        seq![91u8]
    } else if i == 1 {
        seq![91u8] + spec_chunk_bytes(chunks[0])
    } else {
        spec_chunks_prefix(chunks, i - 1) + seq![44u8] + spec_chunk_bytes(chunks[i - 1])
    }
}

/// An open prefix, continued by the rest from the same point, is the whole
/// encoding.
pub proof fn lemma_prefix_rest(chunks: Seq<Chunk>, i: int)
    requires
        1 <= i <= chunks.len(),
    ensures
        spec_chunks_prefix(chunks, i) + spec_chunks_rest(chunks, i) =~= spec_chunks_bytes(chunks),
    decreases i,
{
    if i == 1 {
    } else {
        lemma_prefix_rest_step(chunks, i);
        lemma_prefix_rest(chunks, i - 1);
    }
}

/// Unfolding one record out of the rest onto the prefix.
proof fn lemma_prefix_rest_step(chunks: Seq<Chunk>, i: int)
    requires
        2 <= i <= chunks.len(),
    ensures
        spec_chunks_prefix(chunks, i) + spec_chunks_rest(chunks, i) =~= spec_chunks_prefix(
            chunks,
            i - 1,
        ) + spec_chunks_rest(chunks, i - 1),
{
}

/// The whole encoding is the closed full prefix.
pub proof fn lemma_prefix_closes(chunks: Seq<Chunk>)
    ensures
        spec_chunks_prefix(chunks, chunks.len() as int) + seq![93u8] =~= spec_chunks_bytes(chunks),
{
    if chunks.len() == 0 {
    } else {
        lemma_prefix_rest(chunks, chunks.len() as int);
        assert(spec_chunks_rest(chunks, chunks.len() as int) =~= seq![93u8]);
    }
}

fn push_key_index(out: &mut Vec<u8>)
    ensures
        final(out)@ =~= old(out)@ + key_index(),
{
    out.push(123);
    out.push(34);
    out.push(105);
    out.push(110);
    out.push(100);
    out.push(101);
    out.push(120);
    out.push(34);
    out.push(58);
}

fn push_key_offset(out: &mut Vec<u8>)
    ensures
        final(out)@ =~= old(out)@ + key_offset(),
{
    out.push(44);
    out.push(34);
    out.push(111);
    out.push(102);
    out.push(102);
    out.push(115);
    out.push(101);
    out.push(116);
    out.push(34);
    out.push(58);
}

fn push_key_size(out: &mut Vec<u8>)
    ensures
        final(out)@ =~= old(out)@ + key_size(),
{
    out.push(44);
    out.push(34);
    out.push(115);
    out.push(105);
    out.push(122);
    out.push(101);
    out.push(34);
    out.push(58);
}

fn push_key_accessed(out: &mut Vec<u8>)
    ensures
        final(out)@ =~= old(out)@ + key_accessed(),
{
    out.push(44);
    out.push(34);
    out.push(97);
    out.push(99);
    out.push(99);
    out.push(101);
    out.push(115);
    out.push(115);
    out.push(101);
    out.push(100);
    out.push(95);
    out.push(97);
    out.push(116);
    out.push(95);
    out.push(115);
    out.push(101);
    out.push(99);
    out.push(115);
    out.push(34);
    out.push(58);
}

fn push_key_cached(out: &mut Vec<u8>)
    ensures
        final(out)@ =~= old(out)@ + key_cached(),
{
    out.push(44);
    out.push(34);
    out.push(99);
    out.push(97);
    out.push(99);
    out.push(104);
    out.push(101);
    out.push(100);
    out.push(34);
    out.push(58);
}

fn push_bool(out: &mut Vec<u8>, b: bool)
    ensures
        final(out)@ =~= old(out)@ + spec_bool_bytes(b),
{
    if b {
        out.push(116);
        out.push(114);
        out.push(117);
        out.push(101);
    } else {
        out.push(102);
        out.push(97);
        out.push(108);
        out.push(115);
        out.push(101);
    }
}

/// Write the canonical encoding of one chunk record onto `out`.
fn push_chunk(out: &mut Vec<u8>, c: &Chunk)
    ensures
        final(out)@ =~= old(out)@ + spec_chunk_bytes(*c),
{
    push_key_index(out);
    push_dec_u64(out, c.index);
    push_key_offset(out);
    push_dec_u64(out, c.offset);
    push_key_size(out);
    push_dec_u64(out, c.size);
    push_key_accessed(out);
    push_dec_u64(out, c.accessed_at_secs);
    push_key_cached(out);
    push_bool(out, c.cached);
    out.push(125);
}

/// Serialise a chunk vector into its canonical sidecar encoding.
pub fn serialize_chunks(chunks: &Vec<Chunk>) -> (r: Vec<u8>)
    ensures
        r@ =~= spec_chunks_bytes(chunks@),
{
    let mut out: Vec<u8> = Vec::new();
    out.push(91);
    let n = chunks.len();
    let mut i: usize = 0;
    while i < n
        invariant
            0 <= i <= n,
            n == chunks@.len(),
            out@ =~= spec_chunks_prefix(chunks@, i as int),
        decreases n - i,
    {
        if i > 0 {
            out.push(44);
        }
        push_chunk(&mut out, &chunks[i]);
        i = i + 1;
        proof {
            if i == 1 {
                assert(out@ =~= seq![91u8] + spec_chunk_bytes(chunks@[0]));
            }
        }
    }
    out.push(93);
    proof {
        lemma_prefix_closes(chunks@);
    }
    out
}

/// Byte length of the canonical spelling of `n`.
spec fn num_len(n: int) -> int {
    spec_dec_digits(n).len() as int
}

/// The canonical record of `c` stands at `pos` of `s`.
spec fn spec_chunk_record_at(s: Seq<u8>, pos: int, c: Chunk) -> bool {
    &&& 0 <= pos
    &&& pos + spec_chunk_bytes(c).len() <= s.len()
    &&& s.subrange(pos, pos + spec_chunk_bytes(c).len() as int) == spec_chunk_bytes(c)
}

/// What a read of `true` / `false` at `pos` gives.
spec fn spec_bool_at(s: Seq<u8>, pos: int) -> Option<(bool, int)> {
    if 0 <= pos && pos + 4 <= s.len() && s.subrange(pos, pos + 4) == spec_bool_bytes(true) {
        Some((true, pos + 4))
    } else if 0 <= pos && pos + 5 <= s.len() && s.subrange(pos, pos + 5) == spec_bool_bytes(
        false,
    ) {
        Some((false, pos + 5))
    } else {
        None
    }
}

/// Where the bytes of `a + b` stand at `pos` of `s`, the bytes of `a` and
/// of `b` stand at their places.
proof fn lemma_split_at(s: Seq<u8>, pos: int, a: Seq<u8>, b: Seq<u8>)
    requires
        0 <= pos,
        pos + a.len() + b.len() <= s.len(),
        s.subrange(pos, pos + (a + b).len() as int) == a + b,
    ensures
        s.subrange(pos, pos + a.len() as int) =~= a,
        s.subrange(pos + a.len() as int, pos + a.len() + b.len()) =~= b,
{
    let w = a + b;
    assert forall|i: int| 0 <= i < a.len() implies s.subrange(pos, pos + a.len() as int)[i]
        == a[i] by {
        assert(s.subrange(pos, pos + w.len() as int)[i] == w[i]);
    }
    assert forall|i: int| 0 <= i < b.len() implies s.subrange(
        pos + a.len() as int,
        pos + a.len() + b.len(),
    )[i] == b[i] by {
        assert(s.subrange(pos, pos + w.len() as int)[a.len() + i] == w[a.len() + i]);
        assert(s.subrange(pos, pos + w.len() as int)[a.len() + i] == s[pos + (a.len() + i)]);
        assert(s.subrange(pos + a.len() as int, pos + a.len() + b.len())[i] == s[pos
            + a.len() + i]);
        assert(s[pos + a.len() + i] == s[pos + (a.len() + i)]);
        assert(w[a.len() + i] == b[i]);
    }
}

/// Where a canonical record stands, every read the record parser makes is
/// forced: the keys, the four digit runs with their values, the flag and
/// the closing brace all sit at their fixed offsets.
#[verifier::rlimit(100)]
broadcast proof fn lemma_record_forces(s: Seq<u8>, pos: int, c: Chunk)
    ensures
        #[trigger] spec_chunk_record_at(s, pos, c) ==> ({
            let a1 = pos + 9;
            let a2 = a1 + num_len(c.index as int);
            let a3 = a2 + 10;
            let a4 = a3 + num_len(c.offset as int);
            let a5 = a4 + 8;
            let a6 = a5 + num_len(c.size as int);
            let a7 = a6 + 20;
            let a8 = a7 + num_len(c.accessed_at_secs as int);
            let a9 = a8 + 10;
            let a10 = a9 + spec_bool_bytes(c.cached).len();
            &&& spec_chunk_bytes(c).len() as int == a10 + 1 - pos
            &&& a10 + 1 <= s.len()
            &&& s.subrange(pos, a1) == key_index()
            &&& digit_run_end(s, a1) == a2
            &&& canonical_digits(s.subrange(a1, a2))
            &&& spec_dec_value(s.subrange(a1, a2)) == c.index as int
            &&& s.subrange(a2, a3) == key_offset()
            &&& digit_run_end(s, a3) == a4
            &&& canonical_digits(s.subrange(a3, a4))
            &&& spec_dec_value(s.subrange(a3, a4)) == c.offset as int
            &&& s.subrange(a4, a5) == key_size()
            &&& digit_run_end(s, a5) == a6
            &&& canonical_digits(s.subrange(a5, a6))
            &&& spec_dec_value(s.subrange(a5, a6)) == c.size as int
            &&& s.subrange(a6, a7) == key_accessed()
            &&& digit_run_end(s, a7) == a8
            &&& canonical_digits(s.subrange(a7, a8))
            &&& spec_dec_value(s.subrange(a7, a8)) == c.accessed_at_secs as int
            &&& s.subrange(a8, a9) == key_cached()
            &&& spec_bool_at(s, a9) == Some((c.cached, a10))
            &&& s.subrange(a10, a10 + 1) == seq![125u8]
        }),
{
    if !spec_chunk_record_at(s, pos, c) {
        return;
    }
    let k1 = key_index();
    let d1 = spec_dec_digits(c.index as int);
    let k2 = key_offset();
    let d2 = spec_dec_digits(c.offset as int);
    let k3 = key_size();
    let d3 = spec_dec_digits(c.size as int);
    let k4 = key_accessed();
    let d4 = spec_dec_digits(c.accessed_at_secs as int);
    let k5 = key_cached();
    let bl = spec_bool_bytes(c.cached);
    let br = seq![125u8];
    let q1 = k1 + d1;
    let q2 = q1 + k2;
    let q3 = q2 + d2;
    let q4 = q3 + k3;
    let q5 = q4 + d3;
    let q6 = q5 + k4;
    let q7 = q6 + d4;
    let q8 = q7 + k5;
    let q9 = q8 + bl;
    let cb = spec_chunk_bytes(c);
    assert(cb == q9 + br);
    // peel the record off `s` one layer at a time, outermost first
    lemma_split_at(s, pos, q9, br);
    lemma_split_at(s, pos, q8, bl);
    lemma_split_at(s, pos, q7, k5);
    lemma_split_at(s, pos, q6, d4);
    lemma_split_at(s, pos, q5, k4);
    lemma_split_at(s, pos, q4, d3);
    lemma_split_at(s, pos, q3, k3);
    lemma_split_at(s, pos, q2, d2);
    lemma_split_at(s, pos, q1, k2);
    lemma_split_at(s, pos, k1, d1);
    let a1 = pos + 9;
    let a2 = a1 + num_len(c.index as int);
    let a3 = a2 + 10;
    let a4 = a3 + num_len(c.offset as int);
    let a5 = a4 + 8;
    let a6 = a5 + num_len(c.size as int);
    let a7 = a6 + 20;
    let a8 = a7 + num_len(c.accessed_at_secs as int);
    let a9 = a8 + 10;
    let a10 = a9 + bl.len();
    assert(a2 == pos + q1.len());
    assert(a4 == pos + q3.len());
    assert(a6 == pos + q5.len());
    assert(a8 == pos + q7.len());
    assert(a10 == pos + q9.len());
    // each digit run is canonical, spells its field, and ends at the comma
    // that opens the next key
    lemma_dec_digits_canonical(c.index as int);
    lemma_dec_value_of_digits(c.index as int);
    assert(s[a2] == 44) by {
        assert(s.subrange(a2, a3)[0] == 44);
    }
    assert forall|i: int| a1 <= i < a2 implies crate::dec::is_digit(s[i]) by {
        assert(s.subrange(a1, a2)[i - a1] == s[a1 + (i - a1)]);
        assert(a1 + (i - a1) == i);
        assert(crate::dec::is_digit(d1[i - a1]));
    }
    lemma_digit_run_end_at(s, a1, a2);
    lemma_dec_digits_canonical(c.offset as int);
    lemma_dec_value_of_digits(c.offset as int);
    assert(s[a4] == 44) by {
        assert(s.subrange(a4, a5)[0] == 44);
    }
    assert forall|i: int| a3 <= i < a4 implies crate::dec::is_digit(s[i]) by {
        assert(s.subrange(a3, a4)[i - a3] == s[a3 + (i - a3)]);
        assert(a3 + (i - a3) == i);
        assert(crate::dec::is_digit(d2[i - a3]));
    }
    lemma_digit_run_end_at(s, a3, a4);
    lemma_dec_digits_canonical(c.size as int);
    lemma_dec_value_of_digits(c.size as int);
    assert(s[a6] == 44) by {
        assert(s.subrange(a6, a7)[0] == 44);
    }
    assert forall|i: int| a5 <= i < a6 implies crate::dec::is_digit(s[i]) by {
        assert(s.subrange(a5, a6)[i - a5] == s[a5 + (i - a5)]);
        assert(a5 + (i - a5) == i);
        assert(crate::dec::is_digit(d3[i - a5]));
    }
    lemma_digit_run_end_at(s, a5, a6);
    lemma_dec_digits_canonical(c.accessed_at_secs as int);
    lemma_dec_value_of_digits(c.accessed_at_secs as int);
    assert(s[a8] == 44) by {
        assert(s.subrange(a8, a9)[0] == 44);
    }
    assert forall|i: int| a7 <= i < a8 implies crate::dec::is_digit(s[i]) by {
        assert(s.subrange(a7, a8)[i - a7] == s[a7 + (i - a7)]);
        assert(a7 + (i - a7) == i);
        assert(crate::dec::is_digit(d4[i - a7]));
    }
    lemma_digit_run_end_at(s, a7, a8);
    // the flag read is forced byte by byte
    if c.cached {
        assert(spec_bool_at(s, a9) == Some((true, a10)));
    } else {
        assert(s[a9] == 102) by {
            assert(s.subrange(a9, a10)[0] == 102);
        }
        if a9 + 4 <= s.len() && s.subrange(a9, a9 + 4) == spec_bool_bytes(true) {
            assert(s.subrange(a9, a9 + 4)[0] == 116);
            assert(false);
        }
        assert(spec_bool_at(s, a9) == Some((false, a10)));
    }
}

/// Check that the bytes of `lit` stand at `pos` of `s`.
fn expect_lit(s: &[u8], pos: usize, lit: &[u8]) -> (r: Option<usize>)
    requires
        pos <= s@.len(),
    ensures
        match r {
            Some(q) => {
                &&& q as int == pos as int + lit@.len()
                &&& q <= s@.len()
                &&& s@.subrange(pos as int, q as int) =~= lit@
            },
            None => !(pos as int + lit@.len() <= s@.len() && s@.subrange(
                pos as int,
                pos as int + lit@.len(),
            ) =~= lit@),
        },
{
    let m = lit.len();
    let n = s.len();
    if n - pos < m {
        return None;
    }
    let mut j: usize = 0;
    while j < m
        invariant
            0 <= j <= m,
            m == lit@.len(),
            n == s@.len(),
            pos as int + m <= n,
            forall|i: int| 0 <= i < j ==> s@[pos + i] == lit@[i],
        decreases m - j,
    {
        if s[pos + j] != lit[j] {
            proof {
                assert(s@.subrange(pos as int, pos as int + m)[j as int] != lit@[j as int]);
            }
            return None;
        }
        j = j + 1;
    }
    Some(pos + m)
}

fn key_index_vec() -> (r: Vec<u8>)
    ensures
        r@ =~= key_index(),
{
    let mut v: Vec<u8> = Vec::new();
    push_key_index(&mut v);
    v
}

fn key_offset_vec() -> (r: Vec<u8>)
    ensures
        r@ =~= key_offset(),
{
    let mut v: Vec<u8> = Vec::new();
    push_key_offset(&mut v);
    v
}

fn key_size_vec() -> (r: Vec<u8>)
    ensures
        r@ =~= key_size(),
{
    let mut v: Vec<u8> = Vec::new();
    push_key_size(&mut v);
    v
}

fn key_accessed_vec() -> (r: Vec<u8>)
    ensures
        r@ =~= key_accessed(),
{
    let mut v: Vec<u8> = Vec::new();
    push_key_accessed(&mut v);
    v
}

fn key_cached_vec() -> (r: Vec<u8>)
    ensures
        r@ =~= key_cached(),
{
    let mut v: Vec<u8> = Vec::new();
    push_key_cached(&mut v);
    v
}

/// Read `true` or `false` at `pos`.
fn parse_bool(s: &[u8], pos: usize) -> (r: Option<(bool, usize)>)
    requires
        pos <= s@.len(),
    ensures
        r matches Some((b, q)) ==> pos < q <= s@.len() && s@.subrange(pos as int, q as int)
            =~= spec_bool_bytes(b),
        match r {
            Some((b, q)) => spec_bool_at(s@, pos as int) == Some((b, q as int)),
            None => spec_bool_at(s@, pos as int) is None,
        },
{
    let mut t: Vec<u8> = Vec::new();
    push_bool(&mut t, true);
    let rt = expect_lit(s, pos, t.as_slice());
    if let Some(q) = rt {
        return Some((true, q));
    }
    let mut f: Vec<u8> = Vec::new();
    push_bool(&mut f, false);
    let rf = expect_lit(s, pos, f.as_slice());
    if let Some(q) = rf {
        return Some((false, q));
    }
    None
}

/// Read one canonical chunk record at `pos`. On success, the consumed bytes
/// are exactly the canonical encoding of the returned chunk, whose download
/// guard is free; and wherever a canonical record stands, the read succeeds
/// and consumes exactly that record.
#[verifier::rlimit(100)]
fn parse_chunk(s: &[u8], pos: usize) -> (r: Option<(Chunk, usize)>)
    requires
        pos <= s@.len(),
    ensures
        r matches Some((c, q)) ==> {
            &&& pos < q <= s@.len()
            &&& s@.subrange(pos as int, q as int) =~= spec_chunk_bytes(c)
            &&& !c.downloading
        },
        forall|c0: Chunk|
            spec_chunk_record_at(s@, pos as int, c0) ==> (r matches Some((c, q)) && q as int
                == pos as int + spec_chunk_bytes(c0).len()),
{
    broadcast use lemma_record_forces;

    let ki = key_index_vec();
    let r1 = expect_lit(s, pos, ki.as_slice());
    if r1.is_none() {
        return None;
    }
    let p1 = r1.unwrap();
    let r2 = parse_dec_at(s, p1);
    if r2.is_none() {
        return None;
    }
    let (index, p2) = r2.unwrap();
    proof {
        crate::dec::lemma_digit_run_end_bounds(s@, p1 as int);
    }

    let ko = key_offset_vec();
    let r3 = expect_lit(s, p2, ko.as_slice());
    if r3.is_none() {
        return None;
    }
    let p3 = r3.unwrap();
    let r4 = parse_dec_at(s, p3);
    if r4.is_none() {
        return None;
    }
    let (offset, p4) = r4.unwrap();
    proof {
        crate::dec::lemma_digit_run_end_bounds(s@, p3 as int);
    }

    let ks = key_size_vec();
    let r5 = expect_lit(s, p4, ks.as_slice());
    if r5.is_none() {
        return None;
    }
    let p5 = r5.unwrap();
    let r6 = parse_dec_at(s, p5);
    if r6.is_none() {
        return None;
    }
    let (size, p6) = r6.unwrap();
    proof {
        crate::dec::lemma_digit_run_end_bounds(s@, p5 as int);
    }

    let ka = key_accessed_vec();
    let r7 = expect_lit(s, p6, ka.as_slice());
    if r7.is_none() {
        return None;
    }
    let p7 = r7.unwrap();
    let r8 = parse_dec_at(s, p7);
    if r8.is_none() {
        return None;
    }
    let (accessed, p8) = r8.unwrap();
    proof {
        crate::dec::lemma_digit_run_end_bounds(s@, p7 as int);
    }

    let kc = key_cached_vec();
    let r9 = expect_lit(s, p8, kc.as_slice());
    if r9.is_none() {
        return None;
    }
    let p9 = r9.unwrap();
    let r10 = parse_bool(s, p9);
    if r10.is_none() {
        return None;
    }
    let (cached, p10) = r10.unwrap();

    let mut close: Vec<u8> = Vec::new();
    close.push(125);
    let r11 = expect_lit(s, p10, close.as_slice());
    if r11.is_none() {
        return None;
    }
    let p11 = r11.unwrap();

    let c = Chunk {
        index,
        offset,
        size,
        accessed_at_secs: accessed,
        cached,
        downloading: false,
    };
    proof {
        let sv = s@;
        assert(sv.subrange(pos as int, p2 as int) =~= sv.subrange(pos as int, p1 as int)
            + sv.subrange(p1 as int, p2 as int));
        assert(sv.subrange(pos as int, p3 as int) =~= sv.subrange(pos as int, p2 as int)
            + sv.subrange(p2 as int, p3 as int));
        assert(sv.subrange(pos as int, p4 as int) =~= sv.subrange(pos as int, p3 as int)
            + sv.subrange(p3 as int, p4 as int));
        assert(sv.subrange(pos as int, p5 as int) =~= sv.subrange(pos as int, p4 as int)
            + sv.subrange(p4 as int, p5 as int));
        assert(sv.subrange(pos as int, p6 as int) =~= sv.subrange(pos as int, p5 as int)
            + sv.subrange(p5 as int, p6 as int));
        assert(sv.subrange(pos as int, p7 as int) =~= sv.subrange(pos as int, p6 as int)
            + sv.subrange(p6 as int, p7 as int));
        assert(sv.subrange(pos as int, p8 as int) =~= sv.subrange(pos as int, p7 as int)
            + sv.subrange(p7 as int, p8 as int));
        assert(sv.subrange(pos as int, p9 as int) =~= sv.subrange(pos as int, p8 as int)
            + sv.subrange(p8 as int, p9 as int));
        assert(sv.subrange(pos as int, p10 as int) =~= sv.subrange(pos as int, p9 as int)
            + sv.subrange(p9 as int, p10 as int));
        assert(sv.subrange(pos as int, p11 as int) =~= sv.subrange(pos as int, p10 as int)
            + sv.subrange(p10 as int, p11 as int));
        assert(sv.subrange(pos as int, p11 as int) =~= spec_chunk_bytes(c));
    }
    Some((c, p11))
}

/// The bytes `s` are the canonical sidecar of the vector `cv`, which holds
/// no download guards (guards are never persisted).
pub open spec fn spec_is_sidecar(s: Seq<u8>, cv: Seq<Chunk>) -> bool {
    &&& s =~= spec_chunks_bytes(cv)
    &&& forall|i: int| 0 <= i < cv.len() ==> !(#[trigger] cv[i]).downloading
}

/// Where record `k` of a serialised vector stands, and what follows it: a
/// separator and the next record, or the closing bracket and the end.
proof fn lemma_record_in_vector(cv: Seq<Chunk>, k: int)
    requires
        0 <= k < cv.len(),
    ensures
        ({
            let w = spec_chunks_bytes(cv);
            let p = spec_chunks_prefix(cv, k).len() + (if k == 0 {
                0int
            } else {
                1int
            });
            let e = p + spec_chunk_bytes(cv[k]).len();
            &&& e <= w.len()
            &&& w.subrange(p, e) == spec_chunk_bytes(cv[k])
            &&& spec_chunks_prefix(cv, k + 1).len() == e
            &&& (k + 1 == cv.len() ==> w.len() == e + 1 && w[e] == 93)
            &&& (k + 1 < cv.len() ==> e + 1 <= w.len() && w[e] == 44)
        }),
{
    let w = spec_chunks_bytes(cv);
    let pre = spec_chunks_prefix(cv, k);
    let cb = spec_chunk_bytes(cv[k]);
    let rest1 = spec_chunks_rest(cv, k + 1);
    assert(w.subrange(0, w.len() as int) =~= w);
    if k == 0 {
        assert(w == seq![91u8] + cb + rest1);
        lemma_split_at(w, 0, seq![91u8] + cb, rest1);
        lemma_split_at(w, 0, seq![91u8], cb);
        assert(pre.len() == 1);
    } else {
        lemma_prefix_rest(cv, k);
        assert(spec_chunks_rest(cv, k) == seq![44u8] + cb + rest1);
        assert(w == pre + (seq![44u8] + cb + rest1));
        lemma_split_at(w, 0, pre, seq![44u8] + cb + rest1);
        lemma_split_at(w, pre.len() as int, seq![44u8] + cb, rest1);
        lemma_split_at(w, pre.len() as int, seq![44u8], cb);
    }
    let p = pre.len() + (if k == 0 {
        0int
    } else {
        1int
    });
    let e = p + cb.len();
    assert(w.subrange(e, e + rest1.len()) =~= rest1);
    if k + 1 == cv.len() {
        assert(rest1 == seq![93u8]);
        assert(w[e] == rest1[0]);
    } else {
        assert(rest1 == seq![44u8] + spec_chunk_bytes(cv[k + 1]) + spec_chunks_rest(cv, k + 2));
        assert(rest1[0] == 44);
        assert(w[e] == rest1[0]);
    }
}

/// Deserialise a sidecar: accepts exactly the canonical encoding of one
/// chunk vector, spanning the whole input. Whatever it accepts, serialising
/// the result reproduces the input byte for byte; and every canonical
/// encoding is accepted, so a sidecar the cache wrote is never dropped.
#[verifier::rlimit(100)]
pub fn deserialize_chunks(s: &[u8]) -> (r: Option<Vec<Chunk>>)
    ensures
        r matches Some(out) ==> {
            &&& s@ =~= spec_chunks_bytes(out@)
            &&& forall|i: int| 0 <= i < out@.len() ==> !(#[trigger] out@[i]).downloading
        },
        (exists|cv: Seq<Chunk>| spec_is_sidecar(s@, cv)) ==> r is Some,
{
    let n = s.len();
    if n < 1 || s[0] != 91 {
        proof {
            if exists|cv: Seq<Chunk>| spec_is_sidecar(s@, cv) {
                let cv = choose|cv: Seq<Chunk>| spec_is_sidecar(s@, cv);
                if cv.len() == 0 {
                    assert(s@ == seq![91u8, 93u8]);
                } else {
                    assert(s@[0] == 91);
                }
                assert(false);
            }
        }
        return None;
    }
    let mut pos: usize = 1;
    if pos < n && s[pos] == 93 {
        if pos + 1 == n {
            let out: Vec<Chunk> = Vec::new();
            proof {
                assert(s@ =~= spec_chunks_bytes(out@));
            }
            return Some(out);
        }
        proof {
            if exists|cv: Seq<Chunk>| spec_is_sidecar(s@, cv) {
                let cv = choose|cv: Seq<Chunk>| spec_is_sidecar(s@, cv);
                if cv.len() == 0 {
                    assert(s@ == seq![91u8, 93u8]);
                    assert(pos + 1 == n);
                } else {
                    lemma_record_in_vector(cv, 0);
                    assert(spec_chunk_record_at(s@, 1, cv[0]));
                    lemma_record_forces(s@, 1, cv[0]);
                    assert(s@.subrange(1, 10)[0] == 123);
                }
                assert(false);
            }
        }
        return None;
    }
    let mut out: Vec<Chunk> = Vec::new();
    proof {
        assert forall|cv: Seq<Chunk>| spec_is_sidecar(s@, cv) implies (out@.len() < cv.len()
            && pos as int == spec_chunks_prefix(cv, out@.len() as int).len() + (
        if out@.len() == 0 {
            0int
        } else {
            1int
        })) by {
            if cv.len() == 0 {
                assert(s@ == seq![91u8, 93u8]);
                assert(s@[1] == 93);
                assert(false);
            }
            assert(spec_chunks_prefix(cv, 0).len() == 1);
        }
    }
    loop
        invariant
            1 <= pos <= n,
            n == s@.len(),
            if out@.len() == 0 {
                pos == 1 && s@[0] == 91
            } else {
                s@.subrange(0, pos as int) =~= spec_chunks_prefix(out@, out@.len() as int)
                    + seq![44u8]
            },
            forall|i: int| 0 <= i < out@.len() ==> !(#[trigger] out@[i]).downloading,
            forall|cv: Seq<Chunk>|
                #![trigger spec_is_sidecar(s@, cv)]
                spec_is_sidecar(s@, cv) ==> (out@.len() < cv.len() && pos as int
                    == spec_chunks_prefix(cv, out@.len() as int).len() + (if out@.len() == 0 {
                    0int
                } else {
                    1int
                })),
        decreases n - pos,
    {
        let ghost k0 = out@.len() as int;
        let ghost pos0 = pos as int;
        let rc = parse_chunk(s, pos);
        proof {
            if exists|cv: Seq<Chunk>| spec_is_sidecar(s@, cv) {
                let cv = choose|cv: Seq<Chunk>| spec_is_sidecar(s@, cv);
                lemma_record_in_vector(cv, k0);
                assert(spec_chunk_record_at(s@, pos0, cv[k0]));
            }
        }
        if rc.is_none() {
            return None;
        }
        let (c, q) = rc.unwrap();
        proof {
            let k = out@.len() as int;
            if k == 0 {
                assert(s@.subrange(0, q as int) =~= s@.subrange(0, 1) + s@.subrange(1, q as int));
                assert(s@.subrange(0, 1) =~= seq![91u8]);
                assert(s@.subrange(0, q as int) =~= spec_chunks_prefix(out@.push(c), k + 1));
            } else {
                assert(s@.subrange(0, q as int) =~= s@.subrange(0, pos as int) + s@.subrange(
                    pos as int,
                    q as int,
                ));
                lemma_prefix_agrees(out@, out@.push(c), k);
                assert(spec_chunks_prefix(out@.push(c), k + 1) =~= spec_chunks_prefix(
                    out@.push(c),
                    k,
                ) + seq![44u8] + spec_chunk_bytes(c));
                assert(s@.subrange(0, q as int) =~= spec_chunks_prefix(out@.push(c), k + 1));
            }
        }
        out.push(c);
        pos = q;
        if pos < n && s[pos] == 93 {
            if pos + 1 == n {
                proof {
                    lemma_prefix_closes(out@);
                    assert(s@ =~= s@.subrange(0, pos as int) + seq![93u8]);
                }
                return Some(out);
            }
            proof {
                if exists|cv: Seq<Chunk>| spec_is_sidecar(s@, cv) {
                    let cv = choose|cv: Seq<Chunk>| spec_is_sidecar(s@, cv);
                    lemma_record_in_vector(cv, k0);
                    assert(spec_chunk_record_at(s@, pos0, cv[k0]));
                    if k0 + 1 == cv.len() as int {
                        assert(pos + 1 == n);
                    } else {
                        assert(s@[pos as int] == 44);
                    }
                    assert(false);
                }
            }
            return None;
        }
        if pos < n && s[pos] == 44 {
            pos = pos + 1;
            proof {
                assert(s@.subrange(0, pos as int) =~= s@.subrange(0, pos as int - 1) + seq![44u8]);
                assert forall|cv: Seq<Chunk>| spec_is_sidecar(s@, cv) implies (out@.len() < cv.len()
                    && pos as int == spec_chunks_prefix(cv, out@.len() as int).len() + 1int) by {
                    lemma_record_in_vector(cv, k0);
                    assert(spec_chunk_record_at(s@, pos0, cv[k0]));
                    if k0 + 1 == cv.len() as int {
                        assert(s@[pos as int - 1] == 93);
                        assert(false);
                    }
                }
            }
        } else {
            proof {
                if exists|cv: Seq<Chunk>| spec_is_sidecar(s@, cv) {
                    let cv = choose|cv: Seq<Chunk>| spec_is_sidecar(s@, cv);
                    lemma_record_in_vector(cv, k0);
                    assert(spec_chunk_record_at(s@, pos0, cv[k0]));
                    if k0 + 1 == cv.len() as int {
                        assert(s@[pos as int] == 93 && pos < n);
                    } else {
                        assert(s@[pos as int] == 44 && pos < n);
                    }
                    assert(false);
                }
            }
            return None;
        }
    }
}

/// An open prefix reads only the records before `i`, so growing the vector
/// behind it leaves it unchanged.
proof fn lemma_prefix_agrees(s1: Seq<Chunk>, s2: Seq<Chunk>, i: int)
    requires
        0 <= i <= s1.len(),
        i <= s2.len(),
        forall|j: int| 0 <= j < i ==> s1[j] == s2[j],
    ensures
        spec_chunks_prefix(s1, i) =~= spec_chunks_prefix(s2, i),
    decreases i,
{
    if i > 1 {
        lemma_prefix_agrees(s1, s2, i - 1);
    }
}

} // verus!

