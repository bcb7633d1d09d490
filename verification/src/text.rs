//! Decoding the legacy text encoding and splitting a file into lines.
//!
//! A dictionary file is line-oriented EUC-JP text. The byte `0x0a` never
//! occurs inside an EUC-JP multibyte sequence, so the file is split on that
//! byte first and each chunk is decoded on its own, then stripped of its
//! trailing newlines.

use vstd::prelude::*;

use crate::dict::strs_view;

verus! {

/// What encoding_rs's EUC-JP decoder returns for a byte sequence, with
/// replacement characters standing in for malformed input: a function of
/// the bytes alone.
pub uninterp spec fn euc_jp_chars_of(b: Seq<u8>) -> Seq<char>;

/// Relies on encoding_rs's `EUC_JP.decode`: the decoded characters depend
/// on the bytes alone.
#[verifier::external_body]
fn decode_euc_jp(bytes: &Vec<u8>) -> (r: Vec<char>)
    ensures
        r@ == euc_jp_chars_of(bytes@),
{
    let (cow, _, _) = encoding_rs::EUC_JP.decode(bytes);
    cow.chars().collect()
}

/// Relies on `String`'s `FromIterator<char>`: collecting characters yields
/// the string of exactly those characters.
#[verifier::external_body]
pub(crate) fn string_from_chars(cs: &Vec<char>) -> (r: String)
    ensures
        r@ == cs@,
{
    cs.iter().collect()
}

/// Index of the first occurrence of `b` in `s`; the length if `b` is
/// absent.
pub open spec fn byte_index(s: Seq<u8>, b: u8) -> nat
    decreases s.len(),
{
    if s.len() == 0 {
        0
    } else if s[0] == b {
        0
    } else {
        1 + byte_index(s.drop_first(), b)
    }
}

/// `byte_index` points at the first occurrence.
proof fn lemma_byte_index(s: Seq<u8>, b: u8)
    ensures
        byte_index(s, b) <= s.len(),
        forall|j: int| 0 <= j < byte_index(s, b) ==> s[j] != b,
        byte_index(s, b) < s.len() ==> s[byte_index(s, b) as int] == b,
    decreases s.len(),
{
    if s.len() > 0 && s[0] != b {
        lemma_byte_index(s.drop_first(), b);
        let sub = s.drop_first();
        let i = byte_index(s, b) as int;
        assert forall|j: int| 0 <= j < i implies s[j] != b by {
            if j > 0 {
                assert(s[j] == sub[j - 1]);
            }
        }
        if i < s.len() {
            assert(s[i] == sub[i - 1]);
        }
    }
}

/// If no occurrence of `b` sits before `i` and one sits at `i` (or `i` is
/// the length), then `i` is the first occurrence index.
proof fn lemma_byte_index_is(s: Seq<u8>, b: u8, i: int)
    requires
        0 <= i <= s.len(),
        forall|j: int| 0 <= j < i ==> s[j] != b,
        i < s.len() ==> s[i] == b,
    ensures
        byte_index(s, b) == i,
{
    lemma_byte_index(s, b);
}

/// A decoded line with every trailing newline removed.
pub open spec fn spec_trim_newlines(s: Seq<char>) -> Seq<char>
    decreases s.len(),
{
    if s.len() > 0 && s.last() == '\n' {
        spec_trim_newlines(s.drop_last())
    } else {
        s
    }
}

/// The trimmed line is the prefix that ends before the trailing newlines.
proof fn lemma_trim_newlines_is(s: Seq<char>, e: int)
    requires
        0 <= e <= s.len(),
        forall|j: int| e <= j < s.len() ==> s[j] == '\n',
        e > 0 ==> s[e - 1] != '\n',
    ensures
        spec_trim_newlines(s) == s.take(e),
    decreases s.len(),
{
    if s.len() > 0 && s.last() == '\n' {
        assert(e < s.len());
        lemma_trim_newlines_is(s.drop_last(), e);
        assert(s.drop_last().take(e) =~= s.take(e));
    } else {
        assert(e == s.len());
        assert(s.take(e) =~= s);
    }
}

/// The decoded, trimmed lines of a dictionary file: split on the byte
/// `0x0a` (kept with its chunk), decode each chunk, drop its trailing
/// newlines.
pub open spec fn spec_lines_of(b: Seq<u8>) -> Seq<Seq<char>>
    decreases b.len(),
{
    if b.len() == 0 {
        Seq::empty()
    } else {
        let k = byte_index(b, 0x0a);
        if k + 1 >= b.len() {
            seq![spec_trim_newlines(euc_jp_chars_of(b))]
        } else {
            seq![spec_trim_newlines(euc_jp_chars_of(b.take(k as int + 1)))] + spec_lines_of(
                b.skip(k as int + 1),
            )
        }
    }
}

/// Split a whole dictionary file into its decoded lines, terminators
/// stripped.
pub fn lines_from_bytes(data: &Vec<u8>) -> (out: Vec<String>)
    ensures
        strs_view(out@) == spec_lines_of(data@),
{
    let n = data.len();
    let mut out: Vec<String> = Vec::new();
    let mut p: usize = 0;
    proof {
        assert(data@.skip(0) =~= data@);
        assert(strs_view(out@) + spec_lines_of(data@) =~= spec_lines_of(data@));
    }
    while p < n
        invariant
            p <= n,
            n == data@.len(),
            spec_lines_of(data@) == strs_view(out@) + (if p <= n as int {
                spec_lines_of(data@.skip(p as int))
            } else {
                Seq::<Seq<char>>::empty()
            }),
        decreases n - p,
    {
        let ghost suffix = data@.skip(p as int);
        let mut q: usize = p;
        while q < n && data[q] != 0x0a
            invariant
                p <= q <= n,
                n == data@.len(),
                forall|j: int| p <= j < q ==> data@[j] != 0x0a,
            decreases n - q,
        {
            q += 1;
        }
        proof {
            assert forall|j: int| 0 <= j < q - p implies suffix[j] != 0x0a by {
                assert(suffix[j] == data@[p + j]);
            }
            if q < n {
                assert(suffix[q - p] == data@[q as int]);
            }
            lemma_byte_index_is(suffix, 0x0a, q - p);
        }
        // the chunk keeps its terminator byte, if any
        let stop: usize = if q < n {
            q + 1
        } else {
            n
        };
        let mut chunk: Vec<u8> = Vec::new();
        let mut i: usize = p;
        while i < stop
            invariant
                p <= i <= stop <= n,
                n == data@.len(),
                chunk@ == data@.subrange(p as int, i as int),
            decreases stop - i,
        {
            proof {
                assert(data@.subrange(p as int, i as int + 1) =~= data@.subrange(
                    p as int,
                    i as int,
                ).push(data@[i as int]));
            }
            chunk.push(data[i]);
            i += 1;
        }
        let chars = decode_euc_jp(&chunk);
        // drop the trailing newlines
        let mut e: usize = chars.len();
        while e > 0 && chars[e - 1] == '\n'
            invariant
                e <= chars@.len(),
                forall|j: int| e <= j < chars@.len() ==> chars@[j] == '\n',
            decreases e,
        {
            e -= 1;
        }
        proof {
            lemma_trim_newlines_is(chars@, e as int);
        }
        let mut line: Vec<char> = Vec::new();
        let mut t: usize = 0;
        while t < e
            invariant
                t <= e <= chars@.len(),
                line@ == chars@.subrange(0, t as int),
            decreases e - t,
        {
            proof {
                assert(chars@.subrange(0, t as int + 1) =~= chars@.subrange(0, t as int).push(
                    chars@[t as int],
                ));
            }
            line.push(chars[t]);
            t += 1;
        }
        let s = string_from_chars(&line);
        let ghost out_before = out@;
        out.push(s);
        proof {
            assert(s@ == spec_trim_newlines(euc_jp_chars_of(chunk@)));
            assert(strs_view(out@) =~= strs_view(out_before).push(s@));
            if q < n {
                // a terminated chunk: the suffix continues after it
                assert(chunk@ =~= suffix.take(q - p + 1));
                if q + 1 < n {
                    assert(suffix.skip(q - p + 1) =~= data@.skip(q as int + 1));
                    assert(spec_lines_of(suffix) == seq![
                        spec_trim_newlines(euc_jp_chars_of(suffix.take(q - p + 1))),
                    ] + spec_lines_of(suffix.skip(q - p + 1)));
                } else {
                    assert(spec_lines_of(suffix) == seq![
                        spec_trim_newlines(euc_jp_chars_of(suffix)),
                    ]);
                    assert(chunk@ =~= suffix);
                    assert(data@.skip(n as int) =~= Seq::<u8>::empty());
                }
            } else {
                // the final, unterminated chunk
                assert(chunk@ =~= suffix);
                assert(spec_lines_of(suffix) == seq![spec_trim_newlines(euc_jp_chars_of(suffix))]);
                assert(data@.skip(n as int) =~= Seq::<u8>::empty());
            }
            assert(strs_view(out_before).push(s@) + spec_lines_of(data@.skip(
                if q < n {
                    q as int + 1
                } else {
                    n as int
                },
            )) =~= strs_view(out_before) + (seq![s@] + spec_lines_of(data@.skip(
                if q < n {
                    q as int + 1
                } else {
                    n as int
                },
            ))));
        }
        p = stop;
    }
    proof {
        if p <= n {
            assert(data@.skip(p as int) =~= Seq::<u8>::empty());
        }
        assert(strs_view(out@) + Seq::<Seq<char>>::empty() =~= strs_view(out@));
        assert(spec_lines_of(Seq::<u8>::empty()) =~= Seq::<Seq<char>>::empty());
    }
    out
}

} // verus!
