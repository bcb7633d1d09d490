//! The persistence codec: a dictionary is serialized into a flat sequence of
//! 64-bit words, laid out in little-endian bytes, then gzip-compressed.
//!
//! Word layout of a node:
//! `kanji-entry-count, kanji-entry*, child-count, child*` where a kanji
//! entry is `marker-tag (0|1), marker-char, string-count, string*`, a string
//! is `char-count, char*` and a child is `char, node`.

use std::io::Write;

use vstd::prelude::*;
use vstd::string::StrSliceExecFns;

use crate::dict::{assoc_find, spec_lookup, strs_view, Dict, Node};
use crate::error::DictError;

verus! {

/// What flate2's gzip write-decoder returns for a byte stream: the decoded
/// payload, or nothing when the stream is not a valid gzip stream. Decoding
/// is a pure function of the bytes, fixed by the gzip format.
pub uninterp spec fn gunzip_of(b: Seq<u8>) -> Option<Seq<u8>>;

/// Relies on flate2's `GzEncoder` writing into an in-memory `Vec`: gzip
/// compression is lossless, so gzip-decoding its output yields exactly its
/// input.
#[verifier::external_body]
fn gz_compress(data: &Vec<u8>) -> (r: Result<Vec<u8>, DictError>)
    ensures
        r matches Ok(c) ==> gunzip_of(c@) == Some(data@),
        r matches Err(e) ==> e == DictError::EncodeFailure,
{
    let mut enc = flate2::write::GzEncoder::new(Vec::new(), flate2::Compression::best());
    if enc.write_all(data).is_err() {
        return Err(DictError::EncodeFailure);
    }
    match enc.finish() {
        Ok(c) => Ok(c),
        Err(_) => Err(DictError::EncodeFailure),
    }
}

/// Relies on flate2's `GzDecoder` writing into an in-memory `Vec`: it
/// returns the decoded payload of a valid gzip stream and fails exactly on
/// bytes that are not one.
#[verifier::external_body]
fn gz_decompress(data: &Vec<u8>) -> (r: Result<Vec<u8>, DictError>)
    ensures
        r matches Ok(d) ==> gunzip_of(data@) == Some(d@),
        r is Err ==> gunzip_of(data@) is None,
        r matches Err(e) ==> e == DictError::DecodeFailure,
{
    let mut dec = flate2::write::GzDecoder::new(Vec::new());
    if dec.write_all(data).is_err() {
        return Err(DictError::DecodeFailure);
    }
    match dec.finish() {
        Ok(d) => Ok(d),
        Err(_) => Err(DictError::DecodeFailure),
    }
}

/// A character's Unicode scalar value.
pub open spec fn char_value(c: char) -> u32 {
    c as u32
}

/// Relies on `char::from_u32`: it returns `Some` exactly for valid Unicode
/// scalar values — then the character with that value — and `None` exactly
/// when no character has value `u`.
#[verifier::external_body]
fn char_from_u32(u: u32) -> (r: Option<char>)
    ensures
        r matches Some(c) ==> c as u32 == u,
        r is None ==> forall|c: char| #[trigger] char_value(c) != u,
{
    char::from_u32(u)
}

/// Relies on `String`'s `FromIterator<char>`: collecting characters yields
/// the string of exactly those characters.
#[verifier::external_body]
fn string_from_chars(cs: &Vec<char>) -> (r: String)
    ensures
        r@ == cs@,
{
    cs.iter().collect()
}

broadcast use vstd::utf8::char_is_scalar, vstd::utf8::char_u32_cast;

/// The eight little-endian bytes of one word.
pub open spec fn spec_u64_bytes(w: u64) -> Seq<u8> {
    seq![
        (w & 0xff) as u8,
        ((w >> 8) & 0xff) as u8,
        ((w >> 16) & 0xff) as u8,
        ((w >> 24) & 0xff) as u8,
        ((w >> 32) & 0xff) as u8,
        ((w >> 40) & 0xff) as u8,
        ((w >> 48) & 0xff) as u8,
        ((w >> 56) & 0xff) as u8,
    ]
}

/// The little-endian byte stream of a word sequence.
pub open spec fn spec_word_bytes(ws: Seq<u64>) -> Seq<u8>
    decreases ws.len(),
{
    if ws.len() == 0 {
        Seq::empty()
    } else {
        spec_u64_bytes(ws[0]) + spec_word_bytes(ws.drop_first())
    }
}

/// One more word appends its eight bytes.
proof fn lemma_word_bytes_push(ws: Seq<u64>, w: u64)
    ensures
        spec_word_bytes(ws.push(w)) == spec_word_bytes(ws) + spec_u64_bytes(w),
    decreases ws.len(),
{
    reveal_with_fuel(spec_word_bytes, 2);
    if ws.len() == 0 {
        assert(ws.push(w).drop_first() =~= Seq::<u64>::empty());
        assert(spec_word_bytes(ws.push(w)) =~= spec_u64_bytes(w));
        assert(spec_word_bytes(ws) + spec_u64_bytes(w) =~= spec_u64_bytes(w));
    } else {
        assert(ws.push(w).drop_first() =~= ws.drop_first().push(w));
        lemma_word_bytes_push(ws.drop_first(), w);
        assert(ws.push(w)[0] == ws[0]);
        assert(spec_u64_bytes(ws[0]) + (spec_word_bytes(ws.drop_first()) + spec_u64_bytes(w))
            =~= (spec_u64_bytes(ws[0]) + spec_word_bytes(ws.drop_first())) + spec_u64_bytes(w));
    }
}

/// The byte stream is eight bytes per word.
proof fn lemma_word_bytes_len(ws: Seq<u64>)
    ensures
        spec_word_bytes(ws).len() == 8 * ws.len(),
    decreases ws.len(),
{
    if ws.len() > 0 {
        lemma_word_bytes_len(ws.drop_first());
    }
}

/// Byte `k` of word `i` sits at stream position `8 * i + k`.
proof fn lemma_word_bytes_index(ws: Seq<u64>, i: int, k: int)
    requires
        0 <= i < ws.len(),
        0 <= k < 8,
    ensures
        spec_word_bytes(ws).len() == 8 * ws.len(),
        spec_word_bytes(ws)[8 * i + k] == spec_u64_bytes(ws[i])[k],
    decreases i,
{
    lemma_word_bytes_len(ws);
    lemma_word_bytes_len(ws.drop_first());
    if i == 0 {
    } else {
        lemma_word_bytes_index(ws.drop_first(), i - 1, k);
        assert(ws.drop_first()[i - 1] == ws[i]);
    }
}

/// A word is recovered from its eight bytes: the byte stream determines the
/// words.
proof fn lemma_word_bytes_inj(ws1: Seq<u64>, ws2: Seq<u64>)
    requires
        spec_word_bytes(ws1) == spec_word_bytes(ws2),
    ensures
        ws1 == ws2,
{
    lemma_word_bytes_len(ws1);
    lemma_word_bytes_len(ws2);
    assert forall|i: int| 0 <= i < ws1.len() implies ws1[i] == ws2[i] by {
        lemma_word_bytes_index(ws1, i, 0);
        lemma_word_bytes_index(ws2, i, 0);
        lemma_word_bytes_index(ws1, i, 1);
        lemma_word_bytes_index(ws2, i, 1);
        lemma_word_bytes_index(ws1, i, 2);
        lemma_word_bytes_index(ws2, i, 2);
        lemma_word_bytes_index(ws1, i, 3);
        lemma_word_bytes_index(ws2, i, 3);
        lemma_word_bytes_index(ws1, i, 4);
        lemma_word_bytes_index(ws2, i, 4);
        lemma_word_bytes_index(ws1, i, 5);
        lemma_word_bytes_index(ws2, i, 5);
        lemma_word_bytes_index(ws1, i, 6);
        lemma_word_bytes_index(ws2, i, 6);
        lemma_word_bytes_index(ws1, i, 7);
        lemma_word_bytes_index(ws2, i, 7);
        let a = ws1[i];
        let b = ws2[i];
        assert((a & 0xff) <= 0xff && ((a >> 8) & 0xff) <= 0xff && ((a >> 16) & 0xff) <= 0xff && ((
        a >> 24) & 0xff) <= 0xff && ((a >> 32) & 0xff) <= 0xff && ((a >> 40) & 0xff) <= 0xff && ((
        a >> 48) & 0xff) <= 0xff && ((a >> 56) & 0xff) <= 0xff) by (bit_vector);
        assert((b & 0xff) <= 0xff && ((b >> 8) & 0xff) <= 0xff && ((b >> 16) & 0xff) <= 0xff && ((
        b >> 24) & 0xff) <= 0xff && ((b >> 32) & 0xff) <= 0xff && ((b >> 40) & 0xff) <= 0xff && ((
        b >> 48) & 0xff) <= 0xff && ((b >> 56) & 0xff) <= 0xff) by (bit_vector);
        assert((a & 0xff) == (b & 0xff) && ((a >> 8) & 0xff) == ((b >> 8) & 0xff) && ((a >> 16)
            & 0xff) == ((b >> 16) & 0xff) && ((a >> 24) & 0xff) == ((b >> 24) & 0xff) && ((a
            >> 32) & 0xff) == ((b >> 32) & 0xff) && ((a >> 40) & 0xff) == ((b >> 40) & 0xff) && ((
        a >> 48) & 0xff) == ((b >> 48) & 0xff) && ((a >> 56) & 0xff) == ((b >> 56) & 0xff)
            ==> a == b) by (bit_vector);
    }
    assert(ws1 =~= ws2);
}

/// The two words of an optional inflection marker.
pub open spec fn spec_marker_words(m: Option<char>) -> Seq<u64> {
    match m {
        None => seq![0u64, 0u64],
        Some(c) => seq![1u64, (c as u32) as u64],
    }
}

/// The words of one candidate string: its character count, then one word
/// per character.
pub open spec fn spec_str_words(s: Seq<char>) -> Seq<u64> {
    seq![s.len() as u64] + s.map_values(|c: char| (c as u32) as u64)
}

/// The words of the candidate strings from index `i` on.
pub open spec fn spec_strs_words(vs: Seq<Seq<char>>, i: int) -> Seq<u64>
    decreases vs.len() - i,
{
    if i < 0 || i >= vs.len() {
        Seq::empty()
    } else {
        spec_str_words(vs[i]) + spec_strs_words(vs, i + 1)
    }
}

/// The words of the candidate-map entries from index `i` on: marker, string
/// count, strings.
pub open spec fn spec_kanjis_words(ks: Seq<(Option<char>, Vec<String>)>, i: int) -> Seq<u64>
    decreases ks.len() - i,
{
    if i < 0 || i >= ks.len() {
        Seq::empty()
    } else {
        spec_marker_words(ks[i].0) + seq![ks[i].1@.len() as u64] + spec_strs_words(
            strs_view(ks[i].1@),
            0,
        ) + spec_kanjis_words(ks, i + 1)
    }
}

/// The words of one whole node: candidate-map entry count, the entries, the
/// child count, then each child as its character followed by its subtree.
pub open spec fn spec_node_words(n: Node) -> Seq<u64>
    decreases n, 1int, 0int,
{
    seq![n.kanjis@.len() as u64] + spec_kanjis_words(n.kanjis@, 0) + seq![
        n.children@.len() as u64,
    ] + spec_children_words(n.children, 0)
}

/// The words of the children from index `i` on.
pub open spec fn spec_children_words(v: Vec<(char, Node)>, i: int) -> Seq<u64>
    decreases v, 0int, v@.len() - i,
{
    if i < 0 || i >= v@.len() {
        Seq::empty()
    } else {
        seq![(v@[i].0 as u32) as u64] + spec_node_words(v@[i].1) + spec_children_words(v, i + 1)
    }
}

/// Every count in the subtree fits in one word. This holds of every node a
/// program can build; it is what lets a count word be read back exactly.
pub open spec fn node_bounded(n: Node) -> bool
    decreases n, 1int, 0int,
{
    &&& n.kanjis@.len() <= u64::MAX
    &&& (forall|j: int|
        0 <= j < n.kanjis@.len() ==> #[trigger] n.kanjis@[j].1@.len() <= u64::MAX && (forall|
            t: int,
        | 0 <= t < n.kanjis@[j].1@.len() ==> #[trigger] n.kanjis@[j].1@[t]@.len() <= u64::MAX))
    &&& n.children@.len() <= u64::MAX
    &&& children_bounded(n.children, 0)
}

/// Boundedness of the children from index `i` on.
pub open spec fn children_bounded(v: Vec<(char, Node)>, i: int) -> bool
    decreases v, 0int, v@.len() - i,
{
    if i < 0 || i >= v@.len() {
        true
    } else {
        node_bounded(v@[i].1) && children_bounded(v, i + 1)
    }
}

/// Boundedness of every child from `i` on follows from pointwise
/// boundedness.
proof fn lemma_children_bounded_pointwise(v: Vec<(char, Node)>, i: int)
    requires
        0 <= i <= v@.len(),
        forall|t: int| i <= t < v@.len() ==> node_bounded(#[trigger] v@[t].1),
    ensures
        children_bounded(v, i),
    decreases v@.len() - i,
{
    if i < v@.len() {
        lemma_children_bounded_pointwise(v, i + 1);
    }
}

/// Two tries that answer every lookup identically.
pub open spec fn node_equiv(a: Node, b: Node) -> bool {
    forall|rd: Seq<char>, m: Option<char>| #[trigger] spec_lookup(a, rd, m) == spec_lookup(
        b,
        rd,
        m,
    )
}

/// Equal concatenations with equally long heads split into equal parts.
proof fn lemma_concat_cancel(a: Seq<u64>, x: Seq<u64>, b: Seq<u64>, y: Seq<u64>)
    requires
        a.len() == b.len(),
        a + x == b + y,
    ensures
        a == b,
        x == y,
{
    assert((a + x).len() == a.len() + x.len());
    assert((b + y).len() == b.len() + y.len());
    assert(x.len() == y.len());
    assert forall|i: int| 0 <= i < a.len() implies a[i] == b[i] by {
        assert((a + x)[i] == a[i]);
        assert((b + y)[i] == b[i]);
    }
    assert(a =~= b);
    assert forall|i: int| 0 <= i < x.len() implies x[i] == y[i] by {
        assert((a + x)[a.len() + i] == x[i]);
        assert((b + y)[b.len() + i] == y[i]);
    }
    assert(x =~= y);
}

/// A string's words determine the string and leave the tail intact.
proof fn lemma_str_words_inj(x: Seq<char>, y: Seq<char>, tx: Seq<u64>, ty: Seq<u64>)
    requires
        x.len() <= u64::MAX,
        y.len() <= u64::MAX,
        spec_str_words(x) + tx == spec_str_words(y) + ty,
    ensures
        x == y,
        tx == ty,
{
    assert(seq![x.len() as u64] + (x.map_values(|c: char| (c as u32) as u64) + tx)
        =~= spec_str_words(x) + tx);
    assert(seq![y.len() as u64] + (y.map_values(|c: char| (c as u32) as u64) + ty)
        =~= spec_str_words(y) + ty);
    lemma_concat_cancel(
        seq![x.len() as u64],
        x.map_values(|c: char| (c as u32) as u64) + tx,
        seq![y.len() as u64],
        y.map_values(|c: char| (c as u32) as u64) + ty,
    );
    assert(seq![x.len() as u64][0] == x.len() as u64);
    assert(seq![y.len() as u64][0] == y.len() as u64);
    assert(x.len() as u64 == y.len() as u64);
    assert(x.len() == y.len());
    lemma_concat_cancel(
        x.map_values(|c: char| (c as u32) as u64),
        tx,
        y.map_values(|c: char| (c as u32) as u64),
        ty,
    );
    assert forall|i: int| 0 <= i < x.len() implies x[i] == y[i] by {
        assert(x.map_values(|c: char| (c as u32) as u64)[i] == (x[i] as u32) as u64);
        assert(y.map_values(|c: char| (c as u32) as u64)[i] == (y[i] as u32) as u64);
        vstd::utf8::char_u32_cast(x[i], x[i] as u32);
        vstd::utf8::char_u32_cast(y[i], y[i] as u32);
        assert(x[i] as u32 == y[i] as u32);
        assert((x[i] as u32) as char == x[i]);
        assert((y[i] as u32) as char == y[i]);
    }
    assert(x =~= y);
}

/// A string list's words determine the strings pointwise.
proof fn lemma_strs_words_inj(
    vs1: Seq<Seq<char>>,
    vs2: Seq<Seq<char>>,
    i1: int,
    i2: int,
    t1: Seq<u64>,
    t2: Seq<u64>,
)
    requires
        0 <= i1 <= vs1.len(),
        0 <= i2 <= vs2.len(),
        vs1.len() - i1 == vs2.len() - i2,
        forall|j: int| i1 <= j < vs1.len() ==> (#[trigger] vs1[j]).len() <= u64::MAX,
        forall|j: int| i2 <= j < vs2.len() ==> (#[trigger] vs2[j]).len() <= u64::MAX,
        spec_strs_words(vs1, i1) + t1 == spec_strs_words(vs2, i2) + t2,
    ensures
        forall|t: int| 0 <= t < vs1.len() - i1 ==> #[trigger] vs1[i1 + t] == vs2[i2 + t],
        t1 == t2,
    decreases vs1.len() - i1,
{
    if i1 == vs1.len() {
        assert(spec_strs_words(vs1, i1) =~= Seq::<u64>::empty());
        assert(spec_strs_words(vs2, i2) =~= Seq::<u64>::empty());
        assert(Seq::<u64>::empty() + t1 =~= t1);
        assert(Seq::<u64>::empty() + t2 =~= t2);
    } else {
        assert((spec_str_words(vs1[i1]) + spec_strs_words(vs1, i1 + 1)) + t1 =~= spec_str_words(
            vs1[i1],
        ) + (spec_strs_words(vs1, i1 + 1) + t1));
        assert((spec_str_words(vs2[i2]) + spec_strs_words(vs2, i2 + 1)) + t2 =~= spec_str_words(
            vs2[i2],
        ) + (spec_strs_words(vs2, i2 + 1) + t2));
        lemma_str_words_inj(
            vs1[i1],
            vs2[i2],
            spec_strs_words(vs1, i1 + 1) + t1,
            spec_strs_words(vs2, i2 + 1) + t2,
        );
        lemma_strs_words_inj(vs1, vs2, i1 + 1, i2 + 1, t1, t2);
        assert forall|t: int|
            0 <= t < vs1.len() - i1 implies #[trigger] vs1[i1 + t] == vs2[i2 + t] by {
            if t > 0 {
                assert(vs1[i1 + 1 + (t - 1)] == vs2[i2 + 1 + (t - 1)]);
            }
        }
    }
}

/// A candidate map's words determine its markers and its lists' contents
/// pointwise.
#[verifier::rlimit(60)]
proof fn lemma_kanjis_words_inj(
    ka: Seq<(Option<char>, Vec<String>)>,
    kb: Seq<(Option<char>, Vec<String>)>,
    ia: int,
    ib: int,
    ta: Seq<u64>,
    tb: Seq<u64>,
)
    requires
        0 <= ia <= ka.len(),
        0 <= ib <= kb.len(),
        ka.len() - ia == kb.len() - ib,
        forall|j: int|
            ia <= j < ka.len() ==> #[trigger] ka[j].1@.len() <= u64::MAX && (forall|t: int|
                0 <= t < ka[j].1@.len() ==> #[trigger] ka[j].1@[t]@.len() <= u64::MAX),
        forall|j: int|
            ib <= j < kb.len() ==> #[trigger] kb[j].1@.len() <= u64::MAX && (forall|t: int|
                0 <= t < kb[j].1@.len() ==> #[trigger] kb[j].1@[t]@.len() <= u64::MAX),
        spec_kanjis_words(ka, ia) + ta == spec_kanjis_words(kb, ib) + tb,
    ensures
        forall|t: int|
            0 <= t < ka.len() - ia ==> (#[trigger] ka[ia + t]).0 == kb[ib + t].0 && strs_view(
                ka[ia + t].1@,
            ) == strs_view(kb[ib + t].1@),
        ta == tb,
    decreases ka.len() - ia,
{
    if ia == ka.len() {
        assert(spec_kanjis_words(ka, ia) =~= Seq::<u64>::empty());
        assert(spec_kanjis_words(kb, ib) =~= Seq::<u64>::empty());
        assert(Seq::<u64>::empty() + ta =~= ta);
        assert(Seq::<u64>::empty() + tb =~= tb);
    } else {
        let ma = ka[ia].0;
        let mb = kb[ib].0;
        let va = strs_view(ka[ia].1@);
        let vb = strs_view(kb[ib].1@);
        let ra = spec_strs_words(va, 0) + (spec_kanjis_words(ka, ia + 1) + ta);
        let rb = spec_strs_words(vb, 0) + (spec_kanjis_words(kb, ib + 1) + tb);
        assert(spec_kanjis_words(ka, ia) + ta =~= spec_marker_words(ma) + (seq![
            ka[ia].1@.len() as u64,
        ] + ra));
        assert(spec_kanjis_words(kb, ib) + tb =~= spec_marker_words(mb) + (seq![
            kb[ib].1@.len() as u64,
        ] + rb));
        lemma_concat_cancel(
            spec_marker_words(ma),
            seq![ka[ia].1@.len() as u64] + ra,
            spec_marker_words(mb),
            seq![kb[ib].1@.len() as u64] + rb,
        );
        match (ma, mb) {
            (None, None) => {},
            (Some(c1), Some(c2)) => {
                assert(spec_marker_words(ma)[1] == (c1 as u32) as u64);
                assert(spec_marker_words(mb)[1] == (c2 as u32) as u64);
                vstd::utf8::char_u32_cast(c1, c1 as u32);
                vstd::utf8::char_u32_cast(c2, c2 as u32);
                assert(c1 as u32 == c2 as u32);
                assert((c1 as u32) as char == c1);
                assert((c2 as u32) as char == c2);
                assert(c1 == c2);
            },
            (None, Some(c2)) => {
                assert(spec_marker_words(ma)[0] == 0);
                assert(spec_marker_words(mb)[0] == 1);
                assert(spec_marker_words(ma)[0] == spec_marker_words(mb)[0]);
            },
            (Some(c1), None) => {
                assert(spec_marker_words(ma)[0] == 1);
                assert(spec_marker_words(mb)[0] == 0);
                assert(spec_marker_words(ma)[0] == spec_marker_words(mb)[0]);
            },
        }
        assert(ma == mb);
        lemma_concat_cancel(seq![ka[ia].1@.len() as u64], ra, seq![kb[ib].1@.len() as u64], rb);
        assert(seq![ka[ia].1@.len() as u64][0] == ka[ia].1@.len() as u64);
        assert(seq![kb[ib].1@.len() as u64][0] == kb[ib].1@.len() as u64);
        assert(ka[ia].1@.len() == kb[ib].1@.len());
        assert forall|j: int| 0 <= j < va.len() implies (#[trigger] va[j]).len() <= u64::MAX by {
            assert(va[j] == ka[ia].1@[j]@);
        }
        assert forall|j: int| 0 <= j < vb.len() implies (#[trigger] vb[j]).len() <= u64::MAX by {
            assert(vb[j] == kb[ib].1@[j]@);
        }
        lemma_strs_words_inj(
            va,
            vb,
            0,
            0,
            spec_kanjis_words(ka, ia + 1) + ta,
            spec_kanjis_words(kb, ib + 1) + tb,
        );
        assert forall|t: int| 0 <= t < va.len() implies va[t] == vb[t] by {
            assert(va[0 + t] == vb[0 + t]);
        }
        assert(va =~= vb);
        lemma_kanjis_words_inj(ka, kb, ia + 1, ib + 1, ta, tb);
        assert forall|t: int|
            0 <= t < ka.len() - ia implies (#[trigger] ka[ia + t]).0 == kb[ib + t].0 && strs_view(
            ka[ia + t].1@,
        ) == strs_view(kb[ib + t].1@) by {
            if t > 0 {
                assert(ka[ia + 1 + (t - 1)].0 == kb[ib + 1 + (t - 1)].0);
                assert(strs_view(ka[ia + 1 + (t - 1)].1@) == strs_view(kb[ib + 1 + (t - 1)].1@));
            }
        }
    }
}

/// Pointwise-matching candidate maps answer every marker probe alike.
proof fn lemma_assoc_kanjis_equiv(
    ka: Seq<(Option<char>, Vec<String>)>,
    kb: Seq<(Option<char>, Vec<String>)>,
    m: Option<char>,
)
    requires
        ka.len() == kb.len(),
        forall|t: int|
            0 <= t < ka.len() ==> (#[trigger] ka[t]).0 == kb[t].0 && strs_view(ka[t].1@)
                == strs_view(kb[t].1@),
    ensures
        match (assoc_find(ka, m), assoc_find(kb, m)) {
            (None, None) => true,
            (Some(va), Some(vb)) => strs_view(va@) == strs_view(vb@),
            _ => false,
        },
    decreases ka.len(),
{
    if ka.len() > 0 && ka[0].0 != m {
        assert forall|t: int|
            0 <= t < ka.drop_first().len() implies (#[trigger] ka.drop_first()[t]).0
            == kb.drop_first()[t].0 && strs_view(ka.drop_first()[t].1@) == strs_view(
            kb.drop_first()[t].1@,
        ) by {
            assert(ka.drop_first()[t] == ka[t + 1]);
            assert(kb.drop_first()[t] == kb[t + 1]);
        }
        lemma_assoc_kanjis_equiv(ka.drop_first(), kb.drop_first(), m);
    }
}

/// Pointwise-equivalent child lists answer every child probe alike.
proof fn lemma_assoc_children_equiv(ca: Seq<(char, Node)>, cb: Seq<(char, Node)>, c: char)
    requires
        ca.len() == cb.len(),
        forall|t: int|
            0 <= t < ca.len() ==> (#[trigger] ca[t]).0 == cb[t].0 && node_equiv(
                ca[t].1,
                cb[t].1,
            ),
    ensures
        match (assoc_find(ca, c), assoc_find(cb, c)) {
            (None, None) => true,
            (Some(na), Some(nb)) => node_equiv(na, nb),
            _ => false,
        },
    decreases ca.len(),
{
    if ca.len() > 0 && ca[0].0 != c {
        assert forall|t: int|
            0 <= t < ca.drop_first().len() implies (#[trigger] ca.drop_first()[t]).0
            == cb.drop_first()[t].0 && node_equiv(ca.drop_first()[t].1, cb.drop_first()[t].1) by {
            assert(ca.drop_first()[t] == ca[t + 1]);
            assert(cb.drop_first()[t] == cb[t + 1]);
        }
        lemma_assoc_children_equiv(ca.drop_first(), cb.drop_first(), c);
    }
}

/// Pointwise-matching parts make equivalent nodes.
proof fn lemma_node_equiv_from_parts(a: Node, b: Node)
    requires
        a.kanjis@.len() == b.kanjis@.len(),
        forall|t: int|
            0 <= t < a.kanjis@.len() ==> (#[trigger] a.kanjis@[t]).0 == b.kanjis@[t].0
                && strs_view(a.kanjis@[t].1@) == strs_view(b.kanjis@[t].1@),
        a.children@.len() == b.children@.len(),
        forall|t: int|
            0 <= t < a.children@.len() ==> (#[trigger] a.children@[t]).0 == b.children@[t].0
                && node_equiv(a.children@[t].1, b.children@[t].1),
    ensures
        node_equiv(a, b),
{
    assert forall|rd: Seq<char>, m: Option<char>| #[trigger] spec_lookup(a, rd, m) == spec_lookup(
        b,
        rd,
        m,
    ) by {
        if rd.len() == 0 {
            lemma_assoc_kanjis_equiv(a.kanjis@, b.kanjis@, m);
        } else {
            lemma_assoc_children_equiv(a.children@, b.children@, rd[0]);
            match (assoc_find(a.children@, rd[0]), assoc_find(b.children@, rd[0])) {
                (Some(na), Some(nb)) => {
                    assert(spec_lookup(na, rd.drop_first(), m) == spec_lookup(
                        nb,
                        rd.drop_first(),
                        m,
                    ));
                },
                _ => {},
            }
        }
    }
}

/// A node's words determine every lookup answer, and leave the tail intact.
#[verifier::rlimit(60)]
proof fn lemma_node_words_inj(a: Node, b: Node, ta: Seq<u64>, tb: Seq<u64>)
    requires
        node_bounded(a),
        node_bounded(b),
        spec_node_words(a) + ta == spec_node_words(b) + tb,
    ensures
        node_equiv(a, b),
        ta == tb,
    decreases a, 1int, 0int,
{
    let ra = spec_kanjis_words(a.kanjis@, 0) + (seq![a.children@.len() as u64]
        + (spec_children_words(a.children, 0) + ta));
    let rb = spec_kanjis_words(b.kanjis@, 0) + (seq![b.children@.len() as u64]
        + (spec_children_words(b.children, 0) + tb));
    assert(spec_node_words(a) + ta =~= seq![a.kanjis@.len() as u64] + ra);
    assert(spec_node_words(b) + tb =~= seq![b.kanjis@.len() as u64] + rb);
    lemma_concat_cancel(seq![a.kanjis@.len() as u64], ra, seq![b.kanjis@.len() as u64], rb);
    assert(seq![a.kanjis@.len() as u64][0] == a.kanjis@.len() as u64);
    assert(seq![b.kanjis@.len() as u64][0] == b.kanjis@.len() as u64);
    assert(a.kanjis@.len() == b.kanjis@.len());
    lemma_kanjis_words_inj(
        a.kanjis@,
        b.kanjis@,
        0,
        0,
        seq![a.children@.len() as u64] + (spec_children_words(a.children, 0) + ta),
        seq![b.children@.len() as u64] + (spec_children_words(b.children, 0) + tb),
    );
    lemma_concat_cancel(
        seq![a.children@.len() as u64],
        spec_children_words(a.children, 0) + ta,
        seq![b.children@.len() as u64],
        spec_children_words(b.children, 0) + tb,
    );
    assert(seq![a.children@.len() as u64][0] == a.children@.len() as u64);
    assert(seq![b.children@.len() as u64][0] == b.children@.len() as u64);
    assert(a.children@.len() == b.children@.len());
    lemma_children_words_inj(a.children, b.children, 0, 0, ta, tb);
    assert forall|t: int|
        0 <= t < a.children@.len() implies (#[trigger] a.children@[t]).0 == b.children@[t].0
        && node_equiv(a.children@[t].1, b.children@[t].1) by {
        assert(a.children@[0 + t].0 == b.children@[0 + t].0 && node_equiv(
            a.children@[0 + t].1,
            b.children@[0 + t].1,
        ));
    }
    assert forall|t: int|
        0 <= t < a.kanjis@.len() implies (#[trigger] a.kanjis@[t]).0 == b.kanjis@[t].0
        && strs_view(a.kanjis@[t].1@) == strs_view(b.kanjis@[t].1@) by {
        assert(a.kanjis@[0 + t].0 == b.kanjis@[0 + t].0 && strs_view(a.kanjis@[0 + t].1@)
            == strs_view(b.kanjis@[0 + t].1@));
    }
    lemma_node_equiv_from_parts(a, b);
}

/// A child list's words determine its characters and subtrees pointwise.
#[verifier::rlimit(60)]
proof fn lemma_children_words_inj(
    av: Vec<(char, Node)>,
    bv: Vec<(char, Node)>,
    ia: int,
    ib: int,
    ta: Seq<u64>,
    tb: Seq<u64>,
)
    requires
        0 <= ia <= av@.len(),
        0 <= ib <= bv@.len(),
        av@.len() - ia == bv@.len() - ib,
        children_bounded(av, ia),
        children_bounded(bv, ib),
        spec_children_words(av, ia) + ta == spec_children_words(bv, ib) + tb,
    ensures
        forall|t: int|
            0 <= t < av@.len() - ia ==> (#[trigger] av@[ia + t]).0 == bv@[ib + t].0 && node_equiv(
                av@[ia + t].1,
                bv@[ib + t].1,
            ),
        ta == tb,
    decreases av, 0int, av@.len() - ia,
{
    if ia == av@.len() {
        assert(spec_children_words(av, ia) =~= Seq::<u64>::empty());
        assert(spec_children_words(bv, ib) =~= Seq::<u64>::empty());
        assert(Seq::<u64>::empty() + ta =~= ta);
        assert(Seq::<u64>::empty() + tb =~= tb);
    } else {
        let ra = spec_node_words(av@[ia].1) + (spec_children_words(av, ia + 1) + ta);
        let rb = spec_node_words(bv@[ib].1) + (spec_children_words(bv, ib + 1) + tb);
        assert(spec_children_words(av, ia) + ta =~= seq![(av@[ia].0 as u32) as u64] + ra);
        assert(spec_children_words(bv, ib) + tb =~= seq![(bv@[ib].0 as u32) as u64] + rb);
        lemma_concat_cancel(seq![(av@[ia].0 as u32) as u64], ra, seq![(bv@[ib].0 as u32) as u64], rb);
        assert(seq![(av@[ia].0 as u32) as u64][0] == (av@[ia].0 as u32) as u64);
        assert(seq![(bv@[ib].0 as u32) as u64][0] == (bv@[ib].0 as u32) as u64);
        vstd::utf8::char_u32_cast(av@[ia].0, av@[ia].0 as u32);
        vstd::utf8::char_u32_cast(bv@[ib].0, bv@[ib].0 as u32);
        assert(av@[ia].0 as u32 == bv@[ib].0 as u32);
        assert((av@[ia].0 as u32) as char == av@[ia].0);
        assert((bv@[ib].0 as u32) as char == bv@[ib].0);
        assert(av@[ia].0 == bv@[ib].0);
        assert(decreases_to!(av => av@[ia]));
        assert(decreases_to!(av@[ia] => av@[ia].1));
        lemma_node_words_inj(
            av@[ia].1,
            bv@[ib].1,
            spec_children_words(av, ia + 1) + ta,
            spec_children_words(bv, ib + 1) + tb,
        );
        lemma_children_words_inj(av, bv, ia + 1, ib + 1, ta, tb);
        assert forall|t: int|
            0 <= t < av@.len() - ia implies (#[trigger] av@[ia + t]).0 == bv@[ib + t].0
            && node_equiv(av@[ia + t].1, bv@[ib + t].1) by {
            if t > 0 {
                assert(av@[ia + 1 + (t - 1)].0 == bv@[ib + 1 + (t - 1)].0 && node_equiv(
                    av@[ia + 1 + (t - 1)].1,
                    bv@[ib + 1 + (t - 1)].1,
                ));
            }
        }
    }
}

/// The round-trip law of the persistence codec: a dictionary decoded from
/// a cache artifact answers every lookup exactly as the dictionary the
/// artifact was encoded from. The hypotheses are precisely what
/// `Dict::encode` ensures of its output and what `Dict::decode` ensures of
/// its result on that output; `Dict::decode` cannot fail on it, since its
/// error case excludes every valid artifact.
pub proof fn lemma_round_trip(original: Dict, decoded: Dict, blob: Seq<u8>)
    requires
        node_bounded(original.root),
        node_bounded(decoded.root),
        gunzip_of(blob) == Some(spec_word_bytes(spec_node_words(original.root))),
        gunzip_of(blob) == Some(spec_word_bytes(spec_node_words(decoded.root))),
    ensures
        forall|rd: Seq<char>, m: Option<char>| #[trigger] decoded.spec_look_up(rd, m)
            == original.spec_look_up(rd, m),
{
    let a = original.root;
    let b = decoded.root;
    lemma_word_bytes_inj(spec_node_words(a), spec_node_words(b));
    assert(spec_node_words(a) + Seq::<u64>::empty() =~= spec_node_words(a));
    assert(spec_node_words(b) + Seq::<u64>::empty() =~= spec_node_words(b));
    lemma_node_words_inj(a, b, Seq::empty(), Seq::empty());
    assert forall|rd: Seq<char>, m: Option<char>| #[trigger] decoded.spec_look_up(rd, m)
        == original.spec_look_up(rd, m) by {
        assert(spec_lookup(b, rd, m) == spec_lookup(a, rd, m));
    }
}

/// Append the words of one node to `out`.
fn encode_node_words(n: &Node, out: &mut Vec<u64>)
    ensures
        final(out)@ == old(out)@ + spec_node_words(*n),
        node_bounded(*n),
    decreases *n,
{
    let ghost start = out@;
    let kn = n.kanjis.len();
    out.push(kn as u64);
    let mut j: usize = 0;
    while j < kn
        invariant
            j <= kn,
            kn == n.kanjis@.len(),
            out@ + spec_kanjis_words(n.kanjis@, j as int) == start + seq![kn as u64]
                + spec_kanjis_words(n.kanjis@, 0),
            forall|t: int|
                0 <= t < j ==> #[trigger] n.kanjis@[t].1@.len() <= u64::MAX && (forall|u: int|
                    0 <= u < n.kanjis@[t].1@.len() ==> #[trigger] n.kanjis@[t].1@[u]@.len()
                        <= u64::MAX),
        decreases kn - j,
    {
        let ghost out_j = out@;
        let ghost entry = n.kanjis@[j as int];
        let marker = &n.kanjis[j].0;
        match marker {
            None => {
                out.push(0);
                out.push(0);
            },
            Some(c) => {
                out.push(1);
                out.push(*c as u32 as u64);
            },
        }
        proof {
            assert(out@ =~= out_j + spec_marker_words(entry.0));
        }
        let ghost out_m = out@;
        let sn = n.kanjis[j].1.len();
        out.push(sn as u64);
        let ghost vs = strs_view(entry.1@);
        let mut t: usize = 0;
        while t < sn
            invariant
                t <= sn,
                0 <= j < n.kanjis@.len(),
                entry == n.kanjis@[j as int],
                vs == strs_view(entry.1@),
                sn == entry.1@.len(),
                out@ + spec_strs_words(vs, t as int) == out_m + seq![sn as u64] + spec_strs_words(
                    vs,
                    0,
                ),
                forall|u: int| 0 <= u < t ==> #[trigger] entry.1@[u]@.len() <= u64::MAX,
            decreases sn - t,
        {
            let ghost out_t = out@;
            let s: &String = &n.kanjis[j].1[t];
            let cn = s.as_str().unicode_len();
            out.push(cn as u64);
            let mut u: usize = 0;
            while u < cn
                invariant
                    u <= cn,
                    cn == s@.len(),
                    s@ == vs[t as int],
                    0 <= t < vs.len(),
                    out@ == out_t + seq![cn as u64] + s@.subrange(0, u as int).map_values(
                        |c: char| (c as u32) as u64,
                    ),
                decreases cn - u,
            {
                let c = s.as_str().get_char(u);
                out.push(c as u32 as u64);
                proof {
                    assert(s@.subrange(0, u as int + 1).map_values(|ch: char| (ch as u32) as u64)
                        =~= s@.subrange(0, u as int).map_values(|ch: char| (ch as u32) as u64)
                        .push((c as u32) as u64));
                    assert(out@ =~= out_t + seq![cn as u64] + s@.subrange(0, u as int + 1)
                        .map_values(|ch: char| (ch as u32) as u64));
                }
                u += 1;
            }
            proof {
                assert(s@.subrange(0, cn as int) =~= s@);
                assert(seq![cn as u64] + s@.map_values(|ch: char| (ch as u32) as u64)
                    == spec_str_words(s@));
                assert(out@ =~= out_t + spec_str_words(vs[t as int]));
                assert(spec_strs_words(vs, t as int) == spec_str_words(vs[t as int])
                    + spec_strs_words(vs, t as int + 1));
                assert(out_t + spec_strs_words(vs, t as int) =~= out@ + spec_strs_words(
                    vs,
                    t as int + 1,
                ));
            }
            t += 1;
        }
        proof {
            assert(spec_strs_words(vs, sn as int) =~= Seq::<u64>::empty());
            assert(out@ + Seq::<u64>::empty() =~= out@);
            // out@ == out_m + seq![sn] + spec_strs_words(vs, 0)
            assert(spec_kanjis_words(n.kanjis@, j as int) == spec_marker_words(entry.0) + seq![
                sn as u64,
            ] + spec_strs_words(vs, 0) + spec_kanjis_words(n.kanjis@, j as int + 1));
            assert(out_j + spec_kanjis_words(n.kanjis@, j as int) =~= out@ + spec_kanjis_words(
                n.kanjis@,
                j as int + 1,
            ));
        }
        j += 1;
    }
    proof {
        assert(spec_kanjis_words(n.kanjis@, kn as int) =~= Seq::<u64>::empty());
    }
    let ghost out_k = out@;
    let cn = n.children.len();
    out.push(cn as u64);
    let mut j2: usize = 0;
    while j2 < cn
        invariant
            j2 <= cn,
            cn == n.children@.len(),
            out@ + spec_children_words(n.children, j2 as int) == out_k + seq![cn as u64]
                + spec_children_words(n.children, 0),
            forall|t: int| 0 <= t < j2 ==> node_bounded(#[trigger] n.children@[t].1),
        decreases cn - j2,
    {
        let ghost out_j = out@;
        let entry = &n.children[j2];
        out.push(entry.0 as u32 as u64);
        proof {
            assert(decreases_to!(*n => n.children));
            assert(decreases_to!(n.children => n.children@[j2 as int]));
            assert(decreases_to!(n.children@[j2 as int] => n.children@[j2 as int].1));
        }
        encode_node_words(&entry.1, out);
        proof {
            assert(spec_children_words(n.children, j2 as int) == seq![(n.children@[j2 as int].0
                as u32) as u64] + spec_node_words(n.children@[j2 as int].1) + spec_children_words(
                n.children,
                j2 as int + 1,
            ));
            assert(out_j + spec_children_words(n.children, j2 as int) =~= out@
                + spec_children_words(n.children, j2 as int + 1));
        }
        j2 += 1;
    }
    proof {
        assert(spec_children_words(n.children, cn as int) =~= Seq::<u64>::empty());
        lemma_children_bounded_pointwise(n.children, 0);
        assert(out@ =~= start + spec_node_words(*n));
    }
}

/// Lay a word sequence out as its little-endian byte stream.
fn words_to_bytes(ws: &Vec<u64>) -> (out: Vec<u8>)
    ensures
        out@ == spec_word_bytes(ws@),
{
    let mut out: Vec<u8> = Vec::new();
    let mut i: usize = 0;
    proof {
        assert(ws@.take(0) =~= Seq::<u64>::empty());
    }
    while i < ws.len()
        invariant
            i <= ws@.len(),
            out@ == spec_word_bytes(ws@.take(i as int)),
        decreases ws@.len() - i,
    {
        let w = ws[i];
        out.push((w & 0xff) as u8);
        out.push(((w >> 8) & 0xff) as u8);
        out.push(((w >> 16) & 0xff) as u8);
        out.push(((w >> 24) & 0xff) as u8);
        out.push(((w >> 32) & 0xff) as u8);
        out.push(((w >> 40) & 0xff) as u8);
        out.push(((w >> 48) & 0xff) as u8);
        out.push(((w >> 56) & 0xff) as u8);
        proof {
            lemma_word_bytes_push(ws@.take(i as int), w);
            assert(ws@.take(i as int).push(w) =~= ws@.take(i as int + 1));
            assert(out@ =~= spec_word_bytes(ws@.take(i as int)) + spec_u64_bytes(w));
        }
        i += 1;
    }
    proof {
        assert(ws@.take(i as int) =~= ws@);
    }
    out
}

/// Read a little-endian byte stream back as words; any length that is not a
/// multiple of eight is corrupt.
fn bytes_to_words(bytes: &Vec<u8>) -> (r: Option<Vec<u64>>)
    ensures
        match r {
            Some(ws) => spec_word_bytes(ws@) == bytes@,
            None => bytes@.len() % 8 != 0,
        },
{
    if bytes.len() % 8 != 0 {
        return None;
    }
    let n = bytes.len() / 8;
    let mut ws: Vec<u64> = Vec::new();
    let mut i: usize = 0;
    proof {
        assert(ws@.take(0) =~= Seq::<u64>::empty());
        assert(bytes@.subrange(0, 0) =~= Seq::<u8>::empty());
        assert(bytes@.len() == 8 * n);
    }
    while i < n
        invariant
            i <= n,
            bytes@.len() == 8 * n,
            bytes@.len() <= usize::MAX,
            ws@.len() == i,
            spec_word_bytes(ws@) == bytes@.subrange(0, 8 * i as int),
        decreases n - i,
    {
        proof {
            assert(8 * (i as int) + 8 <= bytes@.len());
        }
        let b0 = bytes[8 * i] as u64;
        let b1 = bytes[8 * i + 1] as u64;
        let b2 = bytes[8 * i + 2] as u64;
        let b3 = bytes[8 * i + 3] as u64;
        let b4 = bytes[8 * i + 4] as u64;
        let b5 = bytes[8 * i + 5] as u64;
        let b6 = bytes[8 * i + 6] as u64;
        let b7 = bytes[8 * i + 7] as u64;
        let w = b0 | (b1 << 8) | (b2 << 16) | (b3 << 24) | (b4 << 32) | (b5 << 40) | (b6 << 48) | (
        b7 << 56);
        let ghost ws0 = ws@;
        ws.push(w);
        proof {
            assert(b0 <= 0xff && b1 <= 0xff && b2 <= 0xff && b3 <= 0xff && b4 <= 0xff && b5
                <= 0xff && b6 <= 0xff && b7 <= 0xff);
            assert({
                let v = b0 | (b1 << 8) | (b2 << 16) | (b3 << 24) | (b4 << 32) | (b5 << 40) | (b6
                    << 48) | (b7 << 56);
                b0 <= 0xff && b1 <= 0xff && b2 <= 0xff && b3 <= 0xff && b4 <= 0xff && b5 <= 0xff
                    && b6 <= 0xff && b7 <= 0xff ==> (v & 0xff) == b0 && ((v >> 8) & 0xff) == b1
                    && ((v >> 16) & 0xff) == b2 && ((v >> 24) & 0xff) == b3 && ((v >> 32) & 0xff)
                    == b4 && ((v >> 40) & 0xff) == b5 && ((v >> 48) & 0xff) == b6 && ((v >> 56)
                    & 0xff) == b7
            }) by (bit_vector);
            assert(spec_u64_bytes(w) =~= bytes@.subrange(8 * i as int, 8 * i as int + 8));
            lemma_word_bytes_push(ws0, w);
            assert(spec_word_bytes(ws@) =~= bytes@.subrange(0, 8 * (i as int + 1)));
        }
        i += 1;
    }
    proof {
        assert(bytes@.subrange(0, 8 * i as int) =~= bytes@);
    }
    Some(ws)
}

/// The word sequence `ws` stands at position `pos` of the stream.
pub open spec fn begins(words: Seq<u64>, pos: int, ws: Seq<u64>) -> bool {
    0 <= pos && pos + ws.len() <= words.len() && words.subrange(pos, pos + ws.len()) == ws
}

/// An element of a stretch that stands in the stream.
proof fn lemma_begins_index(words: Seq<u64>, pos: int, ws: Seq<u64>, k: int)
    requires
        begins(words, pos, ws),
        0 <= k < ws.len(),
    ensures
        words[pos + k] == ws[k],
{
    assert(words.subrange(pos, pos + ws.len())[k] == ws[k]);
}

/// A stretch of the stream splits into its two parts.
proof fn lemma_begins_concat(words: Seq<u64>, pos: int, a: Seq<u64>, b: Seq<u64>)
    ensures
        begins(words, pos, a + b) <==> (begins(words, pos, a) && begins(words, pos + a.len(), b)),
{
    if begins(words, pos, a + b) {
        assert forall|k: int| 0 <= k < a.len() implies words.subrange(pos, pos + a.len())[k]
            == a[k] by {
            lemma_begins_index(words, pos, a + b, k);
            assert((a + b)[k] == a[k]);
        }
        assert(words.subrange(pos, pos + a.len()) =~= a);
        assert forall|k: int|
            0 <= k < b.len() implies words.subrange(
            pos + a.len(),
            pos + a.len() + b.len(),
        )[k] == b[k] by {
            lemma_begins_index(words, pos, a + b, a.len() + k);
            assert((a + b)[a.len() + k] == b[k]);
        }
        assert(words.subrange(pos + a.len(), pos + a.len() + b.len()) =~= b);
    }
    if begins(words, pos, a) && begins(words, pos + a.len(), b) {
        assert forall|k: int| 0 <= k < a.len() + b.len() implies words.subrange(
            pos,
            pos + a.len() + b.len(),
        )[k] == (a + b)[k] by {
            if k < a.len() {
                lemma_begins_index(words, pos, a, k);
            } else {
                lemma_begins_index(words, pos + a.len(), b, k - a.len());
            }
        }
        assert(words.subrange(pos, pos + (a + b).len()) =~= a + b);
    }
}

/// A stream stretch splits at any interior position.
proof fn lemma_subrange_split(words: Seq<u64>, a: int, b: int, c: int)
    requires
        0 <= a <= b <= c <= words.len(),
    ensures
        words.subrange(a, c) == words.subrange(a, b) + words.subrange(b, c),
{
    assert(words.subrange(a, c) =~= words.subrange(a, b) + words.subrange(b, c));
}

/// One more string appends its words.
proof fn lemma_strs_words_push(vs: Seq<Seq<char>>, x: Seq<char>, i: int)
    requires
        0 <= i <= vs.len(),
    ensures
        spec_strs_words(vs.push(x), i) == spec_strs_words(vs, i) + spec_str_words(x),
    decreases vs.len() - i,
{
    if i == vs.len() {
        assert(vs.push(x)[i] == x);
        assert(spec_strs_words(vs.push(x), i + 1) =~= Seq::<u64>::empty());
        assert(spec_str_words(x) + Seq::<u64>::empty() =~= spec_str_words(x));
        assert(spec_strs_words(vs, i) =~= Seq::<u64>::empty());
        assert(Seq::<u64>::empty() + spec_str_words(x) =~= spec_str_words(x));
    } else {
        lemma_strs_words_push(vs, x, i + 1);
        assert(vs.push(x)[i] == vs[i]);
        assert((spec_str_words(vs[i]) + spec_strs_words(vs, i + 1)) + spec_str_words(x)
            =~= spec_str_words(vs[i]) + (spec_strs_words(vs, i + 1) + spec_str_words(x)));
    }
}

/// One more candidate-map entry appends its words.
proof fn lemma_kanjis_words_push(
    ks: Seq<(Option<char>, Vec<String>)>,
    e: (Option<char>, Vec<String>),
    i: int,
)
    requires
        0 <= i <= ks.len(),
    ensures
        spec_kanjis_words(ks.push(e), i) == spec_kanjis_words(ks, i) + (spec_marker_words(e.0)
            + seq![e.1@.len() as u64] + spec_strs_words(strs_view(e.1@), 0)),
    decreases ks.len() - i,
{
    let ew = spec_marker_words(e.0) + seq![e.1@.len() as u64] + spec_strs_words(
        strs_view(e.1@),
        0,
    );
    if i == ks.len() {
        assert(ks.push(e)[i] == e);
        assert(spec_kanjis_words(ks.push(e), i + 1) =~= Seq::<u64>::empty());
        assert(ew + Seq::<u64>::empty() =~= ew);
        assert(spec_kanjis_words(ks, i) =~= Seq::<u64>::empty());
        assert(Seq::<u64>::empty() + ew =~= ew);
    } else {
        lemma_kanjis_words_push(ks, e, i + 1);
        assert(ks.push(e)[i] == ks[i]);
        let hw = spec_marker_words(ks[i].0) + seq![ks[i].1@.len() as u64] + spec_strs_words(
            strs_view(ks[i].1@),
            0,
        );
        assert((hw + spec_kanjis_words(ks, i + 1)) + ew =~= hw + (spec_kanjis_words(ks, i + 1)
            + ew));
    }
}

/// One more child appends its words.
proof fn lemma_children_words_push(
    v: Vec<(char, Node)>,
    v2: Vec<(char, Node)>,
    e: (char, Node),
    i: int,
)
    requires
        v2@ == v@.push(e),
        0 <= i <= v@.len(),
    ensures
        spec_children_words(v2, i) == spec_children_words(v, i) + (seq![(e.0 as u32) as u64]
            + spec_node_words(e.1)),
    decreases v@.len() - i,
{
    let ew = seq![(e.0 as u32) as u64] + spec_node_words(e.1);
    if i == v@.len() {
        assert(v2@[i] == e);
        assert(spec_children_words(v2, i + 1) =~= Seq::<u64>::empty());
        assert((seq![(v2@[i].0 as u32) as u64] + spec_node_words(v2@[i].1)) + Seq::<u64>::empty()
            =~= ew);
        assert(spec_children_words(v, i) =~= Seq::<u64>::empty());
        assert(Seq::<u64>::empty() + ew =~= ew);
    } else {
        lemma_children_words_push(v, v2, e, i + 1);
        assert(v2@[i] == v@[i]);
        let hw = seq![(v@[i].0 as u32) as u64] + spec_node_words(v@[i].1);
        assert((hw + spec_children_words(v, i + 1)) + ew =~= hw + (spec_children_words(v, i + 1)
            + ew));
    }
}

/// Every child from `i` on of a bounded child list is itself bounded.
proof fn lemma_children_bounded_index(v: Vec<(char, Node)>, i: int, t: int)
    requires
        children_bounded(v, i),
        0 <= i <= t < v@.len(),
    ensures
        node_bounded(v@[t].1),
    decreases t - i,
{
    if i < t {
        lemma_children_bounded_index(v, i + 1, t);
    }
}

/// A string-list encoding is at least one word per string.
proof fn lemma_strs_words_min(vs: Seq<Seq<char>>, i: int)
    requires
        0 <= i <= vs.len(),
    ensures
        spec_strs_words(vs, i).len() >= vs.len() - i,
    decreases vs.len() - i,
{
    if i < vs.len() {
        lemma_strs_words_min(vs, i + 1);
    }
}

/// A candidate-map encoding is at least three words per entry.
proof fn lemma_kanjis_words_min(ks: Seq<(Option<char>, Vec<String>)>, i: int)
    requires
        0 <= i <= ks.len(),
    ensures
        spec_kanjis_words(ks, i).len() >= 3 * (ks.len() - i),
    decreases ks.len() - i,
{
    if i < ks.len() {
        lemma_kanjis_words_min(ks, i + 1);
    }
}

/// A node encoding is at least two words.
proof fn lemma_node_words_min(n: Node)
    ensures
        spec_node_words(n).len() >= 2,
{
}

/// A child-list encoding is at least three words per child.
proof fn lemma_children_words_min(v: Vec<(char, Node)>, i: int)
    requires
        0 <= i <= v@.len(),
    ensures
        spec_children_words(v, i).len() >= 3 * (v@.len() - i),
    decreases v@.len() - i,
{
    if i < v@.len() {
        lemma_children_words_min(v, i + 1);
        lemma_node_words_min(v@[i].1);
    }
}

/// Read the two marker words at `pos`: the exact inverse of
/// `spec_marker_words`.
fn decode_marker(words: &Vec<u64>, pos: usize) -> (r: Result<Option<char>, DictError>)
    requires
        pos + 2 <= words@.len(),
    ensures
        r matches Ok(m) ==> words@.subrange(pos as int, pos as int + 2) == spec_marker_words(m),
        r is Err ==> forall|m: Option<char>|
            words@.subrange(pos as int, pos as int + 2) != #[trigger] spec_marker_words(m),
        r matches Err(e) ==> e == DictError::DecodeFailure,
{
    let len = words.len();
    let ghost sub = words@.subrange(pos as int, pos as int + 2);
    proof {
        assert(pos + 2 <= len);
        assert(sub[0] == words@[pos as int]);
        assert(sub[1] == words@[pos as int + 1]);
    }
    let tag = words[pos];
    let mw = words[pos + 1];
    if tag == 0 {
        if mw == 0 {
            proof {
                assert(sub =~= spec_marker_words(None));
            }
            return Ok(None);
        }
        proof {
            assert forall|m: Option<char>| sub != #[trigger] spec_marker_words(m) by {
                if sub == spec_marker_words(m) {
                    match m {
                        None => {
                            assert(spec_marker_words(m)[1] == 0);
                        },
                        Some(c) => {
                            assert(spec_marker_words(m)[0] == 1);
                        },
                    }
                }
            }
        }
        return Err(DictError::DecodeFailure);
    }
    if tag == 1 && mw <= u32::MAX as u64 {
        match char_from_u32(mw as u32) {
            Some(c) => {
                proof {
                    assert((c as u32) as u64 == mw);
                    assert(sub =~= spec_marker_words(Some(c)));
                }
                return Ok(Some(c));
            },
            None => {
                proof {
                    assert forall|m: Option<char>| sub != #[trigger] spec_marker_words(m) by {
                        if sub == spec_marker_words(m) {
                            match m {
                                None => {
                                    assert(spec_marker_words(m)[0] == 0);
                                    assert(sub[0] == 0);
                                },
                                Some(c) => {
                                    assert(spec_marker_words(m)[1] == (c as u32) as u64);
                                    assert(mw == (c as u32) as u64);
                                    assert(char_value(c) == mw as u32);
                                },
                            }
                        }
                    }
                }
                return Err(DictError::DecodeFailure);
            },
        }
    }
    proof {
        assert forall|m: Option<char>| sub != #[trigger] spec_marker_words(m) by {
            if sub == spec_marker_words(m) {
                match m {
                    None => {
                        assert(spec_marker_words(m)[0] == 0);
                    },
                    Some(c) => {
                        assert(spec_marker_words(m)[0] == 1);
                        assert(spec_marker_words(m)[1] == (c as u32) as u64);
                    },
                }
            }
        }
    }
    Err(DictError::DecodeFailure)
}

/// Read one length-prefixed string at `pos`: the exact inverse of
/// `spec_str_words`.
fn decode_str_chars(words: &Vec<u64>, pos: usize) -> (r: Result<(Vec<char>, usize), DictError>)
    requires
        pos <= words@.len(),
    ensures
        r matches Ok(p) ==> pos < p.1 <= words@.len() && words@.subrange(pos as int, p.1 as int)
            == spec_str_words(p.0@) && p.0@.len() <= u64::MAX,
        r is Err ==> forall|v: Seq<char>|
            v.len() <= u64::MAX ==> !begins(words@, pos as int, #[trigger] spec_str_words(v)),
        r matches Err(e) ==> e == DictError::DecodeFailure,
{
    let len = words.len();
    if len - pos < 1 {
        proof {
            assert forall|v: Seq<char>|
                v.len() <= u64::MAX implies !begins(
                words@,
                pos as int,
                #[trigger] spec_str_words(v),
            ) by {
                assert(spec_str_words(v).len() >= 1);
            }
        }
        return Err(DictError::DecodeFailure);
    }
    let cc64 = words[pos];
    let mut cur: usize = pos + 1;
    if cc64 > (len - cur) as u64 {
        proof {
            assert forall|v: Seq<char>|
                v.len() <= u64::MAX implies !begins(
                words@,
                pos as int,
                #[trigger] spec_str_words(v),
            ) by {
                if begins(words@, pos as int, spec_str_words(v)) {
                    lemma_begins_index(words@, pos as int, spec_str_words(v), 0);
                    assert(spec_str_words(v)[0] == v.len() as u64);
                    assert(spec_str_words(v).len() == 1 + v.len());
                }
            }
        }
        return Err(DictError::DecodeFailure);
    }
    let cc = cc64 as usize;
    let mut chars: Vec<char> = Vec::new();
    let mut u: usize = 0;
    while u < cc
        invariant
            u <= cc,
            cur == pos + 1 + u,
            pos + 1 + cc <= words@.len(),
            len == words@.len(),
            words@[pos as int] == cc as u64,
            chars@.len() == u,
            chars@.map_values(|ch: char| (ch as u32) as u64) == words@.subrange(
                pos as int + 1,
                cur as int,
            ),
        decreases cc - u,
    {
        let w = words[cur];
        let ghost prev = chars@;
        if w > u32::MAX as u64 {
            proof {
                assert forall|v: Seq<char>|
                    v.len() <= u64::MAX implies !begins(
                    words@,
                    pos as int,
                    #[trigger] spec_str_words(v),
                ) by {
                    if begins(words@, pos as int, spec_str_words(v)) {
                        lemma_begins_index(words@, pos as int, spec_str_words(v), 0);
                        assert(v.len() == cc);
                        lemma_begins_index(words@, pos as int, spec_str_words(v), 0);
                        assert(spec_str_words(v)[0] == v.len() as u64);
                        assert(v.len() == cc);
                        lemma_begins_index(words@, pos as int, spec_str_words(v), 1 + u);
                        assert(spec_str_words(v)[1 + u] == (v[u as int] as u32) as u64);
                    }
                }
            }
            return Err(DictError::DecodeFailure);
        }
        match char_from_u32(w as u32) {
            Some(c) => {
                proof {
                    assert((c as u32) as u64 == w);
                    assert(prev.push(c).map_values(|ch: char| (ch as u32) as u64)
                        =~= prev.map_values(|ch: char| (ch as u32) as u64).push(
                        (c as u32) as u64,
                    ));
                    assert(words@.subrange(pos as int + 1, cur as int + 1)
                        =~= words@.subrange(pos as int + 1, cur as int).push(words@[cur as int]));
                }
                chars.push(c);
            },
            None => {
                proof {
                    assert forall|v: Seq<char>|
                        v.len() <= u64::MAX implies !begins(
                        words@,
                        pos as int,
                        #[trigger] spec_str_words(v),
                    ) by {
                        if begins(words@, pos as int, spec_str_words(v)) {
                            lemma_begins_index(words@, pos as int, spec_str_words(v), 0);
                            assert(spec_str_words(v)[0] == v.len() as u64);
                            assert(v.len() == cc);
                            lemma_begins_index(words@, pos as int, spec_str_words(v), 1 + u);
                            assert(spec_str_words(v)[1 + u] == (v[u as int] as u32) as u64);
                            assert(char_value(v[u as int]) == w as u32);
                        }
                    }
                }
                return Err(DictError::DecodeFailure);
            },
        }
        cur += 1;
        u += 1;
    }
    proof {
        assert(words@.subrange(pos as int, cur as int) =~= seq![words@[pos as int]]
            + words@.subrange(pos as int + 1, cur as int));
        assert(words@.subrange(pos as int, cur as int) =~= spec_str_words(chars@));
    }
    Ok((chars, cur))
}

/// Read `count` strings at `pos`: the exact inverse of `spec_strs_words`.
fn decode_strings(words: &Vec<u64>, pos: usize, count: usize) -> (r: Result<
    (Vec<String>, usize),
    DictError,
>)
    requires
        pos <= words@.len(),
    ensures
        r matches Ok(p) ==> {
            &&& pos <= p.1 <= words@.len()
            &&& p.0@.len() == count
            &&& words@.subrange(pos as int, p.1 as int) == spec_strs_words(strs_view(p.0@), 0)
            &&& forall|t: int| 0 <= t < p.0@.len() ==> (#[trigger] p.0@[t])@.len() <= u64::MAX
        },
        r is Err ==> forall|vs: Seq<Seq<char>>|
            vs.len() == count && (forall|t: int|
                0 <= t < vs.len() ==> (#[trigger] vs[t]).len() <= u64::MAX) ==> !begins(
                words@,
                pos as int,
                #[trigger] spec_strs_words(vs, 0),
            ),
        r matches Err(e) ==> e == DictError::DecodeFailure,
{
    let len = words.len();
    let mut out: Vec<String> = Vec::new();
    let mut cur: usize = pos;
    let mut t: usize = 0;
    proof {
        assert(words@.subrange(pos as int, pos as int) =~= Seq::<u64>::empty());
        assert(spec_strs_words(strs_view(out@), 0) =~= Seq::<u64>::empty());
    }
    while t < count
        invariant
            t <= count,
            pos <= cur <= words@.len(),
            len == words@.len(),
            out@.len() == t,
            words@.subrange(pos as int, cur as int) == spec_strs_words(strs_view(out@), 0),
            forall|j: int| 0 <= j < out@.len() ==> (#[trigger] out@[j])@.len() <= u64::MAX,
            forall|vs: Seq<Seq<char>>|
                vs.len() == count && (forall|j: int|
                    0 <= j < vs.len() ==> (#[trigger] vs[j]).len() <= u64::MAX) && begins(
                    words@,
                    pos as int,
                    #[trigger] spec_strs_words(vs, 0),
                ) ==> begins(words@, cur as int, spec_strs_words(vs, t as int)),
        decreases count - t,
    {
        let parsed = match decode_str_chars(words, cur) {
            Ok(p) => p,
            Err(e) => {
                proof {
                    assert forall|vs: Seq<Seq<char>>|
                        vs.len() == count && (forall|j: int|
                            0 <= j < vs.len() ==> (#[trigger] vs[j]).len() <= u64::MAX) implies
                        !begins(words@, pos as int, #[trigger] spec_strs_words(vs, 0)) by {
                        if begins(words@, pos as int, spec_strs_words(vs, 0)) {
                            assert(begins(words@, cur as int, spec_strs_words(vs, t as int)));
                            lemma_begins_concat(
                                words@,
                                cur as int,
                                spec_str_words(vs[t as int]),
                                spec_strs_words(vs, t as int + 1),
                            );
                            assert(begins(words@, cur as int, spec_str_words(vs[t as int])));
                        }
                    }
                }
                return Err(e);
            },
        };
        let chars = parsed.0;
        let end = parsed.1;
        let s = crate::text::string_from_chars(&chars);
        let ghost out0 = out@;
        let ghost cur0 = cur as int;
        out.push(s);
        cur = end;
        t += 1;
        proof {
            // soundness: the consumed stretch now encodes one more string
            assert(strs_view(out@) =~= strs_view(out0).push(s@));
            lemma_strs_words_push(strs_view(out0), s@, 0);
            lemma_subrange_split(words@, pos as int, cur0, cur as int);
            assert(spec_str_words(chars@) == spec_str_words(s@));
            // completeness: a hypothetical string list keeps pace
            assert forall|vs: Seq<Seq<char>>|
                vs.len() == count && (forall|j: int|
                    0 <= j < vs.len() ==> (#[trigger] vs[j]).len() <= u64::MAX) && begins(
                    words@,
                    pos as int,
                    #[trigger] spec_strs_words(vs, 0),
                ) implies begins(words@, cur as int, spec_strs_words(vs, t as int)) by {
                assert(begins(words@, cur0, spec_strs_words(vs, t as int - 1)));
                lemma_begins_concat(
                    words@,
                    cur0,
                    spec_str_words(vs[t as int - 1]),
                    spec_strs_words(vs, t as int),
                );
                let lv = spec_str_words(vs[t as int - 1]).len();
                lemma_subrange_split(words@, cur0, cur0 + lv, len as int);
                lemma_subrange_split(words@, cur0, cur as int, len as int);
                lemma_str_words_inj(
                    s@,
                    vs[t as int - 1],
                    words@.subrange(cur as int, len as int),
                    words@.subrange(cur0 + lv, len as int),
                );
            }
        }
    }
    proof {
        assert forall|j: int|
            0 <= j < strs_view(out@).len() implies (#[trigger] strs_view(out@)[j]).len()
            <= u64::MAX by {
            assert(strs_view(out@)[j] == out@[j]@);
        }
    }
    Ok((out, cur))
}

/// Read `count` candidate-map entries at `pos`: the exact inverse of
/// `spec_kanjis_words`.
#[verifier::rlimit(100)]
fn decode_kanjis(words: &Vec<u64>, pos: usize, count: usize) -> (r: Result<
    (Vec<(Option<char>, Vec<String>)>, usize),
    DictError,
>)
    requires
        pos <= words@.len(),
    ensures
        r matches Ok(p) ==> {
            &&& pos <= p.1 <= words@.len()
            &&& p.0@.len() == count
            &&& words@.subrange(pos as int, p.1 as int) == spec_kanjis_words(p.0@, 0)
            &&& forall|j: int|
                0 <= j < p.0@.len() ==> #[trigger] p.0@[j].1@.len() <= u64::MAX && (forall|t: int|
                    0 <= t < p.0@[j].1@.len() ==> #[trigger] p.0@[j].1@[t]@.len() <= u64::MAX)
        },
        r is Err ==> forall|ks: Seq<(Option<char>, Vec<String>)>|
            ks.len() == count && (forall|j: int|
                0 <= j < ks.len() ==> #[trigger] ks[j].1@.len() <= u64::MAX && (forall|t: int|
                    0 <= t < ks[j].1@.len() ==> #[trigger] ks[j].1@[t]@.len() <= u64::MAX))
                ==> !begins(words@, pos as int, #[trigger] spec_kanjis_words(ks, 0)),
        r matches Err(e) ==> e == DictError::DecodeFailure,
{
    let len = words.len();
    let mut out: Vec<(Option<char>, Vec<String>)> = Vec::new();
    let mut cur: usize = pos;
    let mut j: usize = 0;
    proof {
        assert(words@.subrange(pos as int, pos as int) =~= Seq::<u64>::empty());
        assert(spec_kanjis_words(out@, 0) =~= Seq::<u64>::empty());
    }
    while j < count
        invariant
            j <= count,
            pos <= cur <= words@.len(),
            len == words@.len(),
            out@.len() == j,
            words@.subrange(pos as int, cur as int) == spec_kanjis_words(out@, 0),
            forall|q: int|
                0 <= q < out@.len() ==> #[trigger] out@[q].1@.len() <= u64::MAX && (forall|t: int|
                    0 <= t < out@[q].1@.len() ==> #[trigger] out@[q].1@[t]@.len() <= u64::MAX),
            forall|ks: Seq<(Option<char>, Vec<String>)>|
                ks.len() == count && (forall|q: int|
                    0 <= q < ks.len() ==> #[trigger] ks[q].1@.len() <= u64::MAX && (forall|t: int|
                        0 <= t < ks[q].1@.len() ==> #[trigger] ks[q].1@[t]@.len() <= u64::MAX))
                    && begins(words@, pos as int, #[trigger] spec_kanjis_words(ks, 0)) ==> begins(
                    words@,
                    cur as int,
                    spec_kanjis_words(ks, j as int),
                ),
        decreases count - j,
    {
        let ghost hyp_continue = |ks: Seq<(Option<char>, Vec<String>)>|
            ks.len() == count && (forall|q: int|
                0 <= q < ks.len() ==> #[trigger] ks[q].1@.len() <= u64::MAX && (forall|t: int|
                    0 <= t < ks[q].1@.len() ==> #[trigger] ks[q].1@[t]@.len() <= u64::MAX))
                && begins(words@, pos as int, spec_kanjis_words(ks, 0));
        proof {
            assert forall|ks: Seq<(Option<char>, Vec<String>)>|
                #[trigger] hyp_continue(ks) implies begins(
                words@,
                cur as int,
                spec_marker_words(ks[j as int].0) + (seq![ks[j as int].1@.len() as u64]
                    + (spec_strs_words(strs_view(ks[j as int].1@), 0) + spec_kanjis_words(
                    ks,
                    j as int + 1,
                ))),
            ) by {
                assert(begins(words@, cur as int, spec_kanjis_words(ks, j as int)));
                assert(spec_kanjis_words(ks, j as int) =~= spec_marker_words(ks[j as int].0) + (
                seq![ks[j as int].1@.len() as u64] + (spec_strs_words(
                    strs_view(ks[j as int].1@),
                    0,
                ) + spec_kanjis_words(ks, j as int + 1))));
            }
        }
        if len - cur < 3 {
            proof {
                assert forall|ks: Seq<(Option<char>, Vec<String>)>|
                    ks.len() == count && (forall|q: int|
                        0 <= q < ks.len() ==> #[trigger] ks[q].1@.len() <= u64::MAX && (forall|
                            t: int,
                        |
                            0 <= t < ks[q].1@.len() ==> #[trigger] ks[q].1@[t]@.len()
                                <= u64::MAX)) implies !begins(
                    words@,
                    pos as int,
                    #[trigger] spec_kanjis_words(ks, 0),
                ) by {
                    if begins(words@, pos as int, spec_kanjis_words(ks, 0)) {
                        assert(hyp_continue(ks));
                        lemma_strs_words_min(strs_view(ks[j as int].1@), 0);
                    }
                }
            }
            return Err(DictError::DecodeFailure);
        }
        let marker = match decode_marker(words, cur) {
            Ok(m) => m,
            Err(e) => {
                proof {
                    assert forall|ks: Seq<(Option<char>, Vec<String>)>|
                        ks.len() == count && (forall|q: int|
                            0 <= q < ks.len() ==> #[trigger] ks[q].1@.len() <= u64::MAX && (forall|
                                t: int,
                            |
                                0 <= t < ks[q].1@.len() ==> #[trigger] ks[q].1@[t]@.len()
                                    <= u64::MAX)) implies !begins(
                        words@,
                        pos as int,
                        #[trigger] spec_kanjis_words(ks, 0),
                    ) by {
                        if begins(words@, pos as int, spec_kanjis_words(ks, 0)) {
                            assert(hyp_continue(ks));
                            lemma_begins_concat(
                                words@,
                                cur as int,
                                spec_marker_words(ks[j as int].0),
                                seq![ks[j as int].1@.len() as u64] + (spec_strs_words(
                                    strs_view(ks[j as int].1@),
                                    0,
                                ) + spec_kanjis_words(ks, j as int + 1)),
                            );
                        }
                    }
                }
                return Err(e);
            },
        };
        let sc64 = words[cur + 2];
        let scur: usize = cur + 3;
        if sc64 > (len - scur) as u64 {
            proof {
                assert forall|ks: Seq<(Option<char>, Vec<String>)>|
                    ks.len() == count && (forall|q: int|
                        0 <= q < ks.len() ==> #[trigger] ks[q].1@.len() <= u64::MAX && (forall|
                            t: int,
                        |
                            0 <= t < ks[q].1@.len() ==> #[trigger] ks[q].1@[t]@.len()
                                <= u64::MAX)) implies !begins(
                    words@,
                    pos as int,
                    #[trigger] spec_kanjis_words(ks, 0),
                ) by {
                    if begins(words@, pos as int, spec_kanjis_words(ks, 0)) {
                        assert(hyp_continue(ks));
                        let tailw = spec_strs_words(strs_view(ks[j as int].1@), 0)
                            + spec_kanjis_words(ks, j as int + 1);
                        lemma_begins_concat(
                            words@,
                            cur as int,
                            spec_marker_words(ks[j as int].0),
                            seq![ks[j as int].1@.len() as u64] + tailw,
                        );
                        lemma_begins_concat(
                            words@,
                            cur as int + 2,
                            seq![ks[j as int].1@.len() as u64],
                            tailw,
                        );
                        lemma_begins_index(
                            words@,
                            cur as int + 2,
                            seq![ks[j as int].1@.len() as u64],
                            0,
                        );
                        lemma_strs_words_min(strs_view(ks[j as int].1@), 0);
                    }
                }
            }
            return Err(DictError::DecodeFailure);
        }
        let sc = sc64 as usize;
        let parsed = match decode_strings(words, scur, sc) {
            Ok(p) => p,
            Err(e) => {
                proof {
                    assert forall|ks: Seq<(Option<char>, Vec<String>)>|
                        ks.len() == count && (forall|q: int|
                            0 <= q < ks.len() ==> #[trigger] ks[q].1@.len() <= u64::MAX && (forall|
                                t: int,
                            |
                                0 <= t < ks[q].1@.len() ==> #[trigger] ks[q].1@[t]@.len()
                                    <= u64::MAX)) implies !begins(
                        words@,
                        pos as int,
                        #[trigger] spec_kanjis_words(ks, 0),
                    ) by {
                        if begins(words@, pos as int, spec_kanjis_words(ks, 0)) {
                            assert(hyp_continue(ks));
                            let vs = strs_view(ks[j as int].1@);
                            let tailw = spec_strs_words(vs, 0) + spec_kanjis_words(
                                ks,
                                j as int + 1,
                            );
                            lemma_begins_concat(
                                words@,
                                cur as int,
                                spec_marker_words(ks[j as int].0),
                                seq![ks[j as int].1@.len() as u64] + tailw,
                            );
                            lemma_begins_concat(
                                words@,
                                cur as int + 2,
                                seq![ks[j as int].1@.len() as u64],
                                tailw,
                            );
                            lemma_begins_index(
                                words@,
                                cur as int + 2,
                                seq![ks[j as int].1@.len() as u64],
                                0,
                            );
                            lemma_begins_concat(
                                words@,
                                cur as int + 3,
                                spec_strs_words(vs, 0),
                                spec_kanjis_words(ks, j as int + 1),
                            );
                            assert(vs.len() == ks[j as int].1@.len());
                            assert forall|t: int|
                                0 <= t < vs.len() implies (#[trigger] vs[t]).len()
                                <= u64::MAX by {
                                assert(vs[t] == ks[j as int].1@[t]@);
                            }
                        }
                    }
                }
                return Err(e);
            },
        };
        let list = parsed.0;
        let send = parsed.1;
        let ghost out0 = out@;
        let ghost cur0 = cur as int;
        out.push((marker, list));
        cur = send;
        j += 1;
        proof {
            let e = out@[out@.len() - 1];
            assert(out@ =~= out0.push(e));
            lemma_kanjis_words_push(out0, e, 0);
            // the consumed stretch is the entry's words
            lemma_subrange_split(words@, pos as int, cur0, cur as int);
            lemma_subrange_split(words@, cur0, cur0 + 2, cur as int);
            lemma_subrange_split(words@, cur0 + 2, cur0 + 3, cur as int);
            assert(words@.subrange(cur0 + 2, cur0 + 3) =~= seq![words@[cur0 + 2]]);
            assert(e.1@.len() as u64 == sc64);
            assert(words@.subrange(cur0, cur as int) =~= spec_marker_words(e.0) + (seq![
                e.1@.len() as u64,
            ] + spec_strs_words(strs_view(e.1@), 0)));
            assert(spec_marker_words(e.0) + (seq![e.1@.len() as u64] + spec_strs_words(
                strs_view(e.1@),
                0,
            )) =~= spec_marker_words(e.0) + seq![e.1@.len() as u64] + spec_strs_words(
                strs_view(e.1@),
                0,
            ));
            // completeness: a hypothetical candidate map keeps pace
            assert forall|ks: Seq<(Option<char>, Vec<String>)>|
                ks.len() == count && (forall|q: int|
                    0 <= q < ks.len() ==> #[trigger] ks[q].1@.len() <= u64::MAX && (forall|t: int|
                        0 <= t < ks[q].1@.len() ==> #[trigger] ks[q].1@[t]@.len() <= u64::MAX))
                    && begins(words@, pos as int, #[trigger] spec_kanjis_words(ks, 0)) implies
                begins(words@, cur as int, spec_kanjis_words(ks, j as int)) by {
                assert(hyp_continue(ks));
                let jj = j as int - 1;
                let vs = strs_view(ks[jj].1@);
                let tailw = spec_strs_words(vs, 0) + spec_kanjis_words(ks, jj + 1);
                lemma_begins_concat(
                    words@,
                    cur0,
                    spec_marker_words(ks[jj].0),
                    seq![ks[jj].1@.len() as u64] + tailw,
                );
                lemma_begins_concat(words@, cur0 + 2, seq![ks[jj].1@.len() as u64], tailw);
                lemma_begins_index(words@, cur0 + 2, seq![ks[jj].1@.len() as u64], 0);
                lemma_begins_concat(
                    words@,
                    cur0 + 3,
                    spec_strs_words(vs, 0),
                    spec_kanjis_words(ks, jj + 1),
                );
                assert(vs.len() == sc);
                assert forall|t: int| 0 <= t < vs.len() implies (#[trigger] vs[t]).len()
                    <= u64::MAX by {
                    assert(vs[t] == ks[jj].1@[t]@);
                }
                // both readings of the string block cover the same stretch
                let lv = spec_strs_words(vs, 0).len();
                lemma_subrange_split(words@, cur0 + 3, cur0 + 3 + lv, len as int);
                lemma_subrange_split(words@, cur0 + 3, cur as int, len as int);
                lemma_strs_words_inj(
                    strs_view(list@),
                    vs,
                    0,
                    0,
                    words@.subrange(cur as int, len as int),
                    words@.subrange(cur0 + 3 + lv, len as int),
                );
            }
        }
    }
    Ok((out, cur))
}

/// Parse one node out of `words` starting at `pos`: the exact inverse of
/// `spec_node_words`, on bounded nodes.
#[verifier::rlimit(100)]
fn decode_node_raw(words: &Vec<u64>, pos: usize) -> (r: Result<(Node, usize), DictError>)
    requires
        pos <= words@.len(),
    ensures
        r matches Ok(p) ==> pos < p.1 <= words@.len() && words@.subrange(pos as int, p.1 as int)
            == spec_node_words(p.0) && node_bounded(p.0),
        r is Err ==> forall|n: Node|
            node_bounded(n) ==> !begins(words@, pos as int, #[trigger] spec_node_words(n)),
        r matches Err(e) ==> e == DictError::DecodeFailure,
    decreases words@.len() - pos,
{
    let len = words.len();
    proof {
        assert forall|n: Node|
            node_bounded(n) && begins(words@, pos as int, #[trigger] spec_node_words(n)) implies
            begins(
            words@,
            pos as int,
            seq![n.kanjis@.len() as u64] + (spec_kanjis_words(n.kanjis@, 0) + (seq![
                n.children@.len() as u64,
            ] + spec_children_words(n.children, 0))),
        ) by {
            assert(spec_node_words(n) =~= seq![n.kanjis@.len() as u64] + (spec_kanjis_words(
                n.kanjis@,
                0,
            ) + (seq![n.children@.len() as u64] + spec_children_words(n.children, 0))));
        }
    }
    if len - pos < 1 {
        proof {
            assert forall|n: Node|
                node_bounded(n) implies !begins(
                words@,
                pos as int,
                #[trigger] spec_node_words(n),
            ) by {
                lemma_node_words_min(n);
            }
        }
        return Err(DictError::DecodeFailure);
    }
    let kc64 = words[pos];
    if kc64 > (len - (pos + 1)) as u64 {
        proof {
            assert forall|n: Node|
                node_bounded(n) implies !begins(
                words@,
                pos as int,
                #[trigger] spec_node_words(n),
            ) by {
                if begins(words@, pos as int, spec_node_words(n)) {
                    lemma_begins_index(words@, pos as int, spec_node_words(n), 0);
                    lemma_kanjis_words_min(n.kanjis@, 0);
                }
            }
        }
        return Err(DictError::DecodeFailure);
    }
    let kc = kc64 as usize;
    let parsed_k = match decode_kanjis(words, pos + 1, kc) {
        Ok(p) => p,
        Err(e) => {
            proof {
                assert forall|n: Node|
                    node_bounded(n) implies !begins(
                    words@,
                    pos as int,
                    #[trigger] spec_node_words(n),
                ) by {
                    if begins(words@, pos as int, spec_node_words(n)) {
                        let tailw = spec_kanjis_words(n.kanjis@, 0) + (seq![
                            n.children@.len() as u64,
                        ] + spec_children_words(n.children, 0));
                        lemma_begins_concat(
                            words@,
                            pos as int,
                            seq![n.kanjis@.len() as u64],
                            tailw,
                        );
                        lemma_begins_index(words@, pos as int, spec_node_words(n), 0);
                        lemma_begins_concat(
                            words@,
                            pos as int + 1,
                            spec_kanjis_words(n.kanjis@, 0),
                            seq![n.children@.len() as u64] + spec_children_words(n.children, 0),
                        );
                        assert(n.kanjis@.len() == kc);
                    }
                }
            }
            return Err(e);
        },
    };
    let kanjis = parsed_k.0;
    let kend = parsed_k.1;
    // after the candidate map, a hypothetical node's children block begins
    proof {
        assert forall|n: Node|
            node_bounded(n) && begins(words@, pos as int, #[trigger] spec_node_words(n)) implies
            begins(
            words@,
            kend as int,
            seq![n.children@.len() as u64] + spec_children_words(n.children, 0),
        ) by {
            let tailw = spec_kanjis_words(n.kanjis@, 0) + (seq![n.children@.len() as u64]
                + spec_children_words(n.children, 0));
            lemma_begins_concat(words@, pos as int, seq![n.kanjis@.len() as u64], tailw);
            lemma_begins_index(words@, pos as int, spec_node_words(n), 0);
            assert(n.kanjis@.len() == kc);
            lemma_begins_concat(
                words@,
                pos as int + 1,
                spec_kanjis_words(n.kanjis@, 0),
                seq![n.children@.len() as u64] + spec_children_words(n.children, 0),
            );
            let lk = spec_kanjis_words(n.kanjis@, 0).len();
            lemma_subrange_split(words@, pos as int + 1, pos as int + 1 + lk, len as int);
            lemma_subrange_split(words@, pos as int + 1, kend as int, len as int);
            lemma_kanjis_words_inj(
                kanjis@,
                n.kanjis@,
                0,
                0,
                words@.subrange(kend as int, len as int),
                words@.subrange(pos as int + 1 + lk, len as int),
            );
        }
    }
    if len - kend < 1 {
        proof {
            assert forall|n: Node|
                node_bounded(n) implies !begins(
                words@,
                pos as int,
                #[trigger] spec_node_words(n),
            ) by {
                if begins(words@, pos as int, spec_node_words(n)) {
                    assert(begins(
                        words@,
                        kend as int,
                        seq![n.children@.len() as u64] + spec_children_words(n.children, 0),
                    ));
                }
            }
        }
        return Err(DictError::DecodeFailure);
    }
    let cc64 = words[kend];
    let mut cur: usize = kend + 1;
    if cc64 > (len - cur) as u64 {
        proof {
            assert forall|n: Node|
                node_bounded(n) implies !begins(
                words@,
                pos as int,
                #[trigger] spec_node_words(n),
            ) by {
                if begins(words@, pos as int, spec_node_words(n)) {
                    lemma_begins_concat(
                        words@,
                        kend as int,
                        seq![n.children@.len() as u64],
                        spec_children_words(n.children, 0),
                    );
                    lemma_begins_index(words@, kend as int, seq![n.children@.len() as u64], 0);
                    lemma_children_words_min(n.children, 0);
                }
            }
        }
        return Err(DictError::DecodeFailure);
    }
    let cnum = cc64 as usize;
    let mut children: Vec<(char, Node)> = Vec::new();
    let mut j2: usize = 0;
    proof {
        assert(words@.subrange(cur as int, cur as int) =~= Seq::<u64>::empty());
        assert(spec_children_words(children, 0) =~= Seq::<u64>::empty());
        assert forall|n: Node|
            node_bounded(n) && begins(words@, pos as int, #[trigger] spec_node_words(n)) implies
            begins(words@, cur as int, spec_children_words(n.children, 0)) && n.children@.len()
            == cnum by {
            lemma_begins_concat(
                words@,
                kend as int,
                seq![n.children@.len() as u64],
                spec_children_words(n.children, 0),
            );
            lemma_begins_index(words@, kend as int, seq![n.children@.len() as u64], 0);
        }
    }
    while j2 < cnum
        invariant
            j2 <= cnum,
            pos < cur <= words@.len(),
            len == words@.len(),
            children@.len() == j2,
            words@.subrange(kend as int + 1, cur as int) == spec_children_words(children, 0),
            forall|t: int| 0 <= t < children@.len() ==> node_bounded(#[trigger] children@[t].1),
            kend as int + 1 <= cur as int,
            forall|n: Node|
                node_bounded(n) && begins(words@, pos as int, #[trigger] spec_node_words(n))
                    ==> begins(words@, cur as int, spec_children_words(n.children, j2 as int))
                    && n.children@.len() == cnum,
        decreases cnum - j2,
    {
        proof {
            assert forall|n: Node|
                node_bounded(n) && begins(words@, pos as int, #[trigger] spec_node_words(n))
                implies begins(
                words@,
                cur as int,
                seq![(n.children@[j2 as int].0 as u32) as u64] + (spec_node_words(n.children@[j2 as int].1)
                    + spec_children_words(n.children, j2 as int + 1)),
            ) by {
                assert(begins(words@, cur as int, spec_children_words(n.children, j2 as int)));
                assert(spec_children_words(n.children, j2 as int) =~= seq![
                    (n.children@[j2 as int].0 as u32) as u64,
                ] + (spec_node_words(n.children@[j2 as int].1) + spec_children_words(
                    n.children,
                    j2 as int + 1,
                )));
            }
        }
        if len - cur < 1 {
            proof {
                assert forall|n: Node|
                    node_bounded(n) implies !begins(
                    words@,
                    pos as int,
                    #[trigger] spec_node_words(n),
                ) by {
                    if begins(words@, pos as int, spec_node_words(n)) {
                        lemma_children_words_min(n.children, j2 as int);
                    }
                }
            }
            return Err(DictError::DecodeFailure);
        }
        let cw = words[cur];
        if cw > u32::MAX as u64 {
            proof {
                assert forall|n: Node|
                    node_bounded(n) implies !begins(
                    words@,
                    pos as int,
                    #[trigger] spec_node_words(n),
                ) by {
                    if begins(words@, pos as int, spec_node_words(n)) {
                        let c = n.children@[j2 as int].0;
                        lemma_begins_concat(
                            words@,
                            cur as int,
                            seq![(c as u32) as u64],
                            spec_node_words(n.children@[j2 as int].1) + spec_children_words(
                                n.children,
                                j2 as int + 1,
                            ),
                        );
                        lemma_begins_index(words@, cur as int, seq![(c as u32) as u64], 0);
                    }
                }
            }
            return Err(DictError::DecodeFailure);
        }
        let c = match char_from_u32(cw as u32) {
            Some(c) => c,
            None => {
                proof {
                    assert forall|n: Node|
                        node_bounded(n) implies !begins(
                        words@,
                        pos as int,
                        #[trigger] spec_node_words(n),
                    ) by {
                        if begins(words@, pos as int, spec_node_words(n)) {
                            let hc = n.children@[j2 as int].0;
                            lemma_begins_concat(
                                words@,
                                cur as int,
                                seq![(hc as u32) as u64],
                                spec_node_words(n.children@[j2 as int].1) + spec_children_words(
                                    n.children,
                                    j2 as int + 1,
                                ),
                            );
                            lemma_begins_index(words@, cur as int, seq![(hc as u32) as u64], 0);
                            assert(char_value(hc) == cw as u32);
                        }
                    }
                }
                return Err(DictError::DecodeFailure);
            },
        };
        let parsed_c = match decode_node_raw(words, cur + 1) {
            Ok(p) => p,
            Err(e) => {
                proof {
                    assert forall|n: Node|
                        node_bounded(n) implies !begins(
                        words@,
                        pos as int,
                        #[trigger] spec_node_words(n),
                    ) by {
                        if begins(words@, pos as int, spec_node_words(n)) {
                            let hc = n.children@[j2 as int].0;
                            let hn = n.children@[j2 as int].1;
                            lemma_begins_concat(
                                words@,
                                cur as int,
                                seq![(hc as u32) as u64],
                                spec_node_words(hn) + spec_children_words(
                                    n.children,
                                    j2 as int + 1,
                                ),
                            );
                            lemma_begins_concat(
                                words@,
                                cur as int + 1,
                                spec_node_words(hn),
                                spec_children_words(n.children, j2 as int + 1),
                            );
                            lemma_children_bounded_index(n.children, 0, j2 as int);
                        }
                    }
                }
                return Err(e);
            },
        };
        let child = parsed_c.0;
        let cend = parsed_c.1;
        let ghost children0 = children;
        let ghost cur0 = cur as int;
        children.push((c, child));
        cur = cend;
        j2 += 1;
        proof {
            assert((c as u32) as u64 == cw);
            let e = (c, child);
            lemma_children_words_push(children0, children, e, 0);
            lemma_subrange_split(words@, kend as int + 1, cur0, cur as int);
            lemma_subrange_split(words@, cur0, cur0 + 1, cur as int);
            assert(words@.subrange(cur0, cur0 + 1) =~= seq![words@[cur0]]);
            assert(words@.subrange(cur0, cur as int) =~= seq![(e.0 as u32) as u64] + spec_node_words(e.1));
            // completeness: a hypothetical node's children keep pace
            assert forall|n: Node|
                node_bounded(n) && begins(words@, pos as int, #[trigger] spec_node_words(n))
                implies begins(words@, cur as int, spec_children_words(n.children, j2 as int))
                && n.children@.len() == cnum by {
                let jj = j2 as int - 1;
                let hc = n.children@[jj].0;
                let hn = n.children@[jj].1;
                lemma_begins_concat(
                    words@,
                    cur0,
                    seq![(hc as u32) as u64],
                    spec_node_words(hn) + spec_children_words(n.children, jj + 1),
                );
                lemma_begins_concat(
                    words@,
                    cur0 + 1,
                    spec_node_words(hn),
                    spec_children_words(n.children, jj + 1),
                );
                lemma_children_bounded_index(n.children, 0, jj);
                let lw = spec_node_words(hn).len();
                lemma_subrange_split(words@, cur0 + 1, cur0 + 1 + lw, len as int);
                lemma_subrange_split(words@, cur0 + 1, cur as int, len as int);
                lemma_node_words_inj(
                    child,
                    hn,
                    words@.subrange(cur as int, len as int),
                    words@.subrange(cur0 + 1 + lw, len as int),
                );
            }
        }
    }
    let node = Node { children, kanjis };
    proof {
        lemma_children_bounded_pointwise(node.children, 0);
        lemma_subrange_split(words@, pos as int, pos as int + 1, cur as int);
        lemma_subrange_split(words@, pos as int + 1, kend as int, cur as int);
        lemma_subrange_split(words@, kend as int, kend as int + 1, cur as int);
        assert(words@.subrange(pos as int, pos as int + 1) =~= seq![words@[pos as int]]);
        assert(words@.subrange(kend as int, kend as int + 1) =~= seq![words@[kend as int]]);
        assert(node.kanjis@.len() as u64 == kc64);
        assert(node.children@.len() as u64 == cc64);
        assert(words@.subrange(pos as int, cur as int) =~= spec_node_words(node));
    }
    Ok((node, cur))
}

impl Dict {
    /// Serialize the whole trie into its compact binary form and compress
    /// it: the result is the cache artifact, and its gzip decoding is
    /// exactly the byte stream of this dictionary's words.
    pub fn encode(&self) -> (r: Result<Vec<u8>, DictError>)
        ensures
            r matches Ok(c) ==> gunzip_of(c@) == Some(
                spec_word_bytes(spec_node_words(self.root)),
            ) && node_bounded(self.root),
            r matches Err(e) ==> e == DictError::EncodeFailure,
    {
        let mut words: Vec<u64> = Vec::new();
        encode_node_words(&self.root, &mut words);
        proof {
            assert(Seq::<u64>::empty() + spec_node_words(self.root) =~= spec_node_words(
                self.root,
            ));
        }
        let bytes = words_to_bytes(&words);
        gz_compress(&bytes)
    }

    /// Decompress and deserialize a cache artifact: the exact inverse of
    /// `encode`. It succeeds precisely on the gzip of the byte stream of
    /// some dictionary's words, and then returns a dictionary with exactly
    /// that stream — by the round-trip law, one that answers every lookup
    /// as the dictionary the artifact was encoded from. Corrupted bytes and
    /// trailing data are rejected.
    pub fn decode(bytes: &Vec<u8>) -> (r: Result<Dict, DictError>)
        ensures
            r matches Ok(d) ==> gunzip_of(bytes@) == Some(
                spec_word_bytes(spec_node_words(d.root)),
            ) && node_bounded(d.root),
            r is Err ==> forall|n: Node|
                node_bounded(n) ==> gunzip_of(bytes@) != Some(
                    spec_word_bytes(#[trigger] spec_node_words(n)),
                ),
            r matches Err(e) ==> e == DictError::DecodeFailure,
    {
        let raw = match gz_decompress(bytes) {
            Ok(r) => r,
            Err(e) => {
                return Err(e);
            },
        };
        let words = match bytes_to_words(&raw) {
            Some(w) => w,
            None => {
                proof {
                    assert forall|n: Node|
                        node_bounded(n) implies gunzip_of(bytes@) != Some(
                        spec_word_bytes(#[trigger] spec_node_words(n)),
                    ) by {
                        if gunzip_of(bytes@) == Some(spec_word_bytes(spec_node_words(n))) {
                            assert(raw@ == spec_word_bytes(spec_node_words(n)));
                            lemma_word_bytes_len(spec_node_words(n));
                        }
                    }
                }
                return Err(DictError::DecodeFailure);
            },
        };
        let parsed = match decode_node_raw(&words, 0) {
            Ok(p) => p,
            Err(e) => {
                proof {
                    assert forall|n: Node|
                        node_bounded(n) implies gunzip_of(bytes@) != Some(
                        spec_word_bytes(#[trigger] spec_node_words(n)),
                    ) by {
                        if gunzip_of(bytes@) == Some(spec_word_bytes(spec_node_words(n))) {
                            assert(raw@ == spec_word_bytes(spec_node_words(n)));
                            lemma_word_bytes_inj(words@, spec_node_words(n));
                            assert(words@.subrange(0, spec_node_words(n).len() as int)
                                =~= spec_node_words(n));
                            assert(begins(words@, 0, spec_node_words(n)));
                        }
                    }
                }
                return Err(e);
            },
        };
        let node = parsed.0;
        let end = parsed.1;
        if end != words.len() {
            proof {
                assert forall|n: Node|
                    node_bounded(n) implies gunzip_of(bytes@) != Some(
                    spec_word_bytes(#[trigger] spec_node_words(n)),
                ) by {
                    if gunzip_of(bytes@) == Some(spec_word_bytes(spec_node_words(n))) {
                        assert(raw@ == spec_word_bytes(spec_node_words(n)));
                        lemma_word_bytes_inj(words@, spec_node_words(n));
                        lemma_subrange_split(words@, 0, end as int, words@.len() as int);
                        assert(words@.subrange(0, words@.len() as int) =~= words@);
                        assert(spec_node_words(node) + words@.subrange(
                            end as int,
                            words@.len() as int,
                        ) == words@);
                        assert(spec_node_words(n) + Seq::<u64>::empty() =~= words@);
                        lemma_node_words_inj(
                            node,
                            n,
                            words@.subrange(end as int, words@.len() as int),
                            Seq::empty(),
                        );
                    }
                }
            }
            return Err(DictError::DecodeFailure);
        }
        proof {
            assert(words@.subrange(0, words@.len() as int) =~= words@);
        }
        Ok(Dict { root: node })
    }
}

} // verus!
