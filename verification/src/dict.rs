//! The trie-based dictionary: data model, lookup and line insertion.

use vstd::prelude::*;
use vstd::string::StrSliceExecFns;

use crate::error::DictError;

verus! {

/// One trie node. `children` is an association list keyed by reading
/// character; `kanjis` is an association list keyed by the optional
/// inflection marker, holding the ordered candidate lists. Keys are looked
/// up by first match, so duplicate keys behind the first are inert.
pub struct Node {
    pub children: Vec<(char, Node)>,
    pub kanjis: Vec<(Option<char>, Vec<String>)>,
}

/// A dictionary owns the root of the trie. It is built once from lines and
/// then only read; a rebuild produces a fresh value.
pub struct Dict {
    pub root: Node,
}

/// First match for `k` in an association list.
pub open spec fn assoc_find<K, V>(s: Seq<(K, V)>, k: K) -> Option<V>
    decreases s.len(),
{
    if s.len() == 0 {
        None
    } else if s[0].0 == k {
        Some(s[0].1)
    } else {
        assoc_find(s.drop_first(), k)
    }
}

/// A list of candidate strings abstracted to a sequence of character
/// sequences.
pub open spec fn strs_view(s: Seq<String>) -> Seq<Seq<char>> {
    s.map_values(|x: String| x@)
}

/// What appending candidates `ks` does to a previously stored list: a missing
/// list counts as empty.
pub open spec fn prev_app(prev: Option<Seq<Seq<char>>>, ks: Seq<Seq<char>>) -> Seq<Seq<char>> {
    match prev {
        Some(p) => p + ks,
        None => ks,
    }
}

/// What a lookup of `readings` under marker `acc` returns in the trie rooted
/// at `n`: the candidate lists are abstracted to sequences of character
/// sequences. This is the mathematical model that every contract speaks of.
pub open spec fn spec_lookup(n: Node, readings: Seq<char>, acc: Option<char>) -> Option<Seq<Seq<char>>>
    decreases readings.len(),
{
    if readings.len() == 0 {
        match assoc_find(n.kanjis@, acc) {
            Some(ks) => Some(strs_view(ks@)),
            None => None,
        }
    } else {
        match assoc_find(n.children@, readings[0]) {
            Some(child) => spec_lookup(child, readings.drop_first(), acc),
            None => None,
        }
    }
}

/// If no key of `s` equals `k`, the find misses.
proof fn lemma_assoc_find_none<K, V>(s: Seq<(K, V)>, k: K)
    requires
        forall|j: int| 0 <= j < s.len() ==> s[j].0 != k,
    ensures
        assoc_find(s, k) is None,
    decreases s.len(),
{
    if s.len() > 0 {
        lemma_assoc_find_none(s.drop_first(), k);
    }
}

/// If `i` is the first index whose key equals `k`, the find returns its value.
proof fn lemma_assoc_find_first<K, V>(s: Seq<(K, V)>, k: K, i: int)
    requires
        0 <= i < s.len(),
        s[i].0 == k,
        forall|j: int| 0 <= j < i ==> s[j].0 != k,
    ensures
        assoc_find(s, k) == Some(s[i].1),
    decreases i,
{
    if i > 0 {
        lemma_assoc_find_first(s.drop_first(), k, i - 1);
    }
}

/// Index of the first entry keyed by `k`; the length if `k` is absent.
pub open spec fn assoc_index<K, V>(s: Seq<(K, V)>, k: K) -> int
    decreases s.len(),
{
    if s.len() == 0 {
        0
    } else if s[0].0 == k {
        0
    } else {
        1 + assoc_index(s.drop_first(), k)
    }
}

/// `assoc_index` points at the first match and agrees with `assoc_find`.
proof fn lemma_assoc_index<K, V>(s: Seq<(K, V)>, k: K)
    ensures
        0 <= assoc_index(s, k) <= s.len(),
        forall|j: int| 0 <= j < assoc_index(s, k) ==> s[j].0 != k,
        assoc_index(s, k) < s.len() ==> s[assoc_index(s, k)].0 == k && assoc_find(s, k) == Some(
            s[assoc_index(s, k)].1,
        ),
        assoc_index(s, k) == s.len() ==> assoc_find(s, k) is None,
    decreases s.len(),
{
    if s.len() > 0 && s[0].0 != k {
        lemma_assoc_index(s.drop_first(), k);
        let sub = s.drop_first();
        let i = assoc_index(s, k);
        assert forall|j: int| 0 <= j < i implies s[j].0 != k by {
            if j > 0 {
                assert(s[j] == sub[j - 1]);
            }
        }
        if i < s.len() {
            assert(s[i] == sub[i - 1]);
        }
    }
}

/// Updating the entry at the first index for key `k` changes the find for
/// `k` to the new value and leaves every other key's find unchanged.
proof fn lemma_assoc_update<K, V>(s: Seq<(K, V)>, k: K, i: int, v: V)
    requires
        0 <= i < s.len(),
        s[i].0 == k,
        forall|j: int| 0 <= j < i ==> s[j].0 != k,
    ensures
        assoc_find(s.update(i, (k, v)), k) == Some(v),
        forall|k2: K| k2 != k ==> assoc_find(s.update(i, (k, v)), k2) == assoc_find(s, k2),
{
    let s2 = s.update(i, (k, v));
    lemma_assoc_find_first(s2, k, i);
    assert forall|k2: K| k2 != k implies assoc_find(s2, k2) == assoc_find(s, k2) by {
        lemma_assoc_index(s, k2);
        let idx = assoc_index(s, k2);
        if idx == s.len() {
            lemma_assoc_find_none(s2, k2);
        } else {
            lemma_assoc_find_first(s2, k2, idx);
        }
    }
}

/// Appending an entry for a key that is absent makes the find for that key
/// return the new value and leaves every other key's find unchanged.
proof fn lemma_assoc_push<K, V>(s: Seq<(K, V)>, k: K, v: V)
    requires
        forall|j: int| 0 <= j < s.len() ==> s[j].0 != k,
    ensures
        assoc_find(s.push((k, v)), k) == Some(v),
        forall|k2: K| k2 != k ==> assoc_find(s.push((k, v)), k2) == assoc_find(s, k2),
{
    let s2 = s.push((k, v));
    lemma_assoc_find_first(s2, k, s.len() as int);
    assert forall|k2: K| k2 != k implies assoc_find(s2, k2) == assoc_find(s, k2) by {
        lemma_assoc_index(s, k2);
        let idx = assoc_index(s, k2);
        if idx == s.len() {
            lemma_assoc_find_none(s2, k2);
        } else {
            lemma_assoc_find_first(s2, k2, idx);
        }
    }
}

/// A node with no children and no candidate lists answers every lookup with
/// not-found.
pub proof fn lemma_lookup_empty_node(n: Node)
    requires
        n.children@.len() == 0,
        n.kanjis@.len() == 0,
    ensures
        forall|r: Seq<char>, m: Option<char>| spec_lookup(n, r, m) is None,
{
}

/// Lookup reads a node only through the views of its two lists.
proof fn lemma_lookup_congruent(n1: Node, n2: Node)
    requires
        n1.children@ == n2.children@,
        n1.kanjis@ == n2.kanjis@,
    ensures
        forall|r: Seq<char>, m: Option<char>| spec_lookup(n1, r, m) == spec_lookup(n2, r, m),
{
    assert forall|r: Seq<char>, m: Option<char>| spec_lookup(n1, r, m) == spec_lookup(n2, r, m) by {
        if r.len() == 0 {
        } else {
            assert(spec_lookup(n1, r, m) == match assoc_find(n1.children@, r[0]) {
                Some(child) => spec_lookup(child, r.drop_first(), m),
                None => None,
            });
            assert(spec_lookup(n2, r, m) == match assoc_find(n2.children@, r[0]) {
                Some(child) => spec_lookup(child, r.drop_first(), m),
                None => None,
            });
        }
    }
}

impl Node {
    /// A fresh node: no children, no candidates.
    pub fn new() -> (r: Self)
        ensures
            r.children@.len() == 0,
            r.kanjis@.len() == 0,
            forall|rd: Seq<char>, m: Option<char>| spec_lookup(r, rd, m) is None,
    {
        let n = Node { children: Vec::new(), kanjis: Vec::new() };
        proof {
            lemma_lookup_empty_node(n);
        }
        n
    }
}

/// Two optional markers compared by value.
fn marker_eq(a: &Option<char>, b: &Option<char>) -> (r: bool)
    ensures
        r == (*a == *b),
{
    match (a, b) {
        (None, None) => true,
        (Some(x), Some(y)) => *x == *y,
        _ => false,
    }
}

/// First child of `children` keyed by `c`, if any.
fn find_child_ref<'a>(children: &'a Vec<(char, Node)>, c: char) -> (r: Option<&'a Node>)
    ensures
        match r {
            Some(n) => assoc_find(children@, c) == Some(*n),
            None => assoc_find(children@, c) is None,
        },
{
    let mut j: usize = 0;
    while j < children.len()
        invariant
            j <= children@.len(),
            forall|t: int| 0 <= t < j ==> children@[t].0 != c,
        decreases children@.len() - j,
    {
        let entry = &children[j];
        if entry.0 == c {
            proof {
                lemma_assoc_find_first(children@, c, j as int);
            }
            return Some(&entry.1);
        }
        j += 1;
    }
    proof {
        lemma_assoc_find_none(children@, c);
    }
    None
}

/// First candidate list of `kanjis` keyed by marker `m`, if any.
fn find_kanjis_ref<'a>(kanjis: &'a Vec<(Option<char>, Vec<String>)>, m: &Option<char>) -> (r: Option<
    &'a Vec<String>,
>)
    ensures
        match r {
            Some(ks) => assoc_find(kanjis@, *m) == Some(*ks),
            None => assoc_find(kanjis@, *m) is None,
        },
{
    let mut j: usize = 0;
    while j < kanjis.len()
        invariant
            j <= kanjis@.len(),
            forall|t: int| 0 <= t < j ==> kanjis@[t].0 != *m,
        decreases kanjis@.len() - j,
    {
        let entry = &kanjis[j];
        if marker_eq(&entry.0, m) {
            proof {
                lemma_assoc_find_first(kanjis@, *m, j as int);
            }
            return Some(&entry.1);
        }
        j += 1;
    }
    proof {
        lemma_assoc_find_none(kanjis@, *m);
    }
    None
}

/// Index of the first occurrence of `c` in `s`; the length if `c` is absent.
pub open spec fn char_index(s: Seq<char>, c: char) -> nat
    decreases s.len(),
{
    if s.len() == 0 {
        0
    } else if s[0] == c {
        0
    } else {
        1 + char_index(s.drop_first(), c)
    }
}

/// `char_index` points at the first occurrence.
proof fn lemma_char_index(s: Seq<char>, c: char)
    ensures
        char_index(s, c) <= s.len(),
        forall|j: int| 0 <= j < char_index(s, c) ==> s[j] != c,
        char_index(s, c) < s.len() ==> s[char_index(s, c) as int] == c,
    decreases s.len(),
{
    if s.len() > 0 && s[0] != c {
        lemma_char_index(s.drop_first(), c);
        let sub = s.drop_first();
        let i = char_index(s, c) as int;
        assert forall|j: int| 0 <= j < i implies s[j] != c by {
            if j > 0 {
                assert(s[j] == sub[j - 1]);
            }
        }
        if i < s.len() {
            assert(s[i] == sub[i - 1]);
        }
    }
}

/// If no occurrence of `c` sits before `i` and one sits at `i` (or `i` is
/// the length), then `i` is the first occurrence index.
proof fn lemma_char_index_is(s: Seq<char>, c: char, i: int)
    requires
        0 <= i <= s.len(),
        forall|j: int| 0 <= j < i ==> s[j] != c,
        i < s.len() ==> s[i] == c,
    ensures
        char_index(s, c) == i,
{
    lemma_char_index(s, c);
}

/// A comment line: it begins with the two-character marker `;;`.
pub open spec fn spec_is_comment(s: Seq<char>) -> bool {
    s.len() >= 2 && s[0] == ';' && s[1] == ';'
}

/// A line the parser skips without error: a comment, or a line without a
/// space (so without exactly two tokens).
pub open spec fn spec_line_skip(s: Seq<char>) -> bool {
    spec_is_comment(s) || char_index(s, ' ') == s.len()
}

/// The key token of a line: everything before the first space, one reading
/// character per decoded character.
pub open spec fn spec_line_key(s: Seq<char>) -> Seq<char> {
    s.take(char_index(s, ' ') as int)
}

/// A candidate field with its optional `;`-introduced annotation removed.
pub open spec fn spec_strip_annotation(f: Seq<char>) -> Seq<char> {
    f.take(char_index(f, ';') as int)
}

/// The candidate fields of a candidate token: split on `/`, empty fields
/// discarded, annotations stripped.
pub open spec fn spec_cands(s: Seq<char>) -> Seq<Seq<char>>
    decreases s.len(),
{
    if s.len() == 0 {
        Seq::empty()
    } else {
        let k = char_index(s, '/');
        let rest = if k + 1 >= s.len() {
            Seq::<char>::empty()
        } else {
            s.skip(k as int + 1)
        };
        let tail = spec_cands(rest);
        if k == 0 {
            tail
        } else {
            seq![spec_strip_annotation(s.take(k as int))] + tail
        }
    }
}

/// The candidate fields of a whole line: the candidate token is everything
/// after the first space.
pub open spec fn spec_line_cands(s: Seq<char>) -> Seq<Seq<char>> {
    spec_cands(s.skip(char_index(s, ' ') as int + 1))
}

/// An ASCII letter.
pub open spec fn is_ascii_alpha(c: char) -> bool {
    (97 <= c as u32 && c as u32 <= 122) || (65 <= c as u32 && c as u32 <= 90)
}

/// The inflection marker of a key token: its last character, when that is
/// an ASCII letter; absent otherwise.
pub open spec fn spec_acc_kana(key: Seq<char>) -> Option<char> {
    if key.len() > 0 && is_ascii_alpha(key.last()) {
        Some(key.last())
    } else {
        None
    }
}

/// The trie path of a key token: the key without its inflection marker.
pub open spec fn spec_stored_path(key: Seq<char>) -> Seq<char> {
    if key.len() > 0 && is_ascii_alpha(key.last()) {
        key.drop_last()
    } else {
        key
    }
}

/// Whether a line parses to an entry: not skipped, and both its reading and
/// its candidate list are nonempty.
pub open spec fn spec_line_entry(l: Seq<char>) -> bool {
    !spec_line_skip(l) && spec_line_key(l).len() > 0 && spec_line_cands(l).len() > 0
}

/// Whether a line is accepted by the parser: skipped, or a proper entry.
pub open spec fn spec_line_ok(l: Seq<char>) -> bool {
    spec_line_skip(l) || (spec_line_key(l).len() > 0 && spec_line_cands(l).len() > 0)
}

/// What one line contributes to the stored list of `(rd, m)`.
pub open spec fn spec_line_contrib(l: Seq<char>, rd: Seq<char>, m: Option<char>) -> Option<
    Seq<Seq<char>>,
> {
    if spec_line_entry(l) && spec_stored_path(spec_line_key(l)) == rd && spec_acc_kana(
        spec_line_key(l),
    ) == m {
        Some(spec_line_cands(l))
    } else {
        None
    }
}

/// Two optional stored lists in line order: the earlier one stands first.
pub open spec fn opt_app(a: Option<Seq<Seq<char>>>, b: Option<Seq<Seq<char>>>) -> Option<
    Seq<Seq<char>>,
> {
    match a {
        None => b,
        Some(x) => match b {
            None => Some(x),
            Some(y) => Some(x + y),
        },
    }
}

/// The list that looking up `(rd, m)` returns after inserting `lines` in
/// order into an empty dictionary.
pub open spec fn spec_accumulated(lines: Seq<Seq<char>>, rd: Seq<char>, m: Option<char>) -> Option<
    Seq<Seq<char>>,
>
    decreases lines.len(),
{
    if lines.len() == 0 {
        None
    } else {
        opt_app(
            spec_line_contrib(lines[0], rd, m),
            spec_accumulated(lines.drop_first(), rd, m),
        )
    }
}

/// Index of the first malformed line; the length if every line is accepted.
pub open spec fn spec_bad_index(lines: Seq<Seq<char>>) -> int
    decreases lines.len(),
{
    if lines.len() == 0 {
        0
    } else if !spec_line_ok(lines[0]) {
        0
    } else {
        1 + spec_bad_index(lines.drop_first())
    }
}

/// `spec_bad_index` points at the first malformed line.
proof fn lemma_bad_index(lines: Seq<Seq<char>>)
    ensures
        0 <= spec_bad_index(lines) <= lines.len(),
        forall|j: int| 0 <= j < spec_bad_index(lines) ==> spec_line_ok(lines[j]),
        spec_bad_index(lines) < lines.len() ==> !spec_line_ok(lines[spec_bad_index(lines)]),
    decreases lines.len(),
{
    if lines.len() > 0 && spec_line_ok(lines[0]) {
        lemma_bad_index(lines.drop_first());
        let sub = lines.drop_first();
        let b = spec_bad_index(lines);
        assert forall|j: int| 0 <= j < b implies spec_line_ok(lines[j]) by {
            if j > 0 {
                assert(lines[j] == sub[j - 1]);
            }
        }
        if b < lines.len() {
            assert(lines[b] == sub[b - 1]);
        }
    }
}

/// Processing one more line appends that line's contribution.
proof fn lemma_accumulated_push(
    lines: Seq<Seq<char>>,
    x: Seq<char>,
    rd: Seq<char>,
    m: Option<char>,
)
    ensures
        spec_accumulated(lines.push(x), rd, m) == opt_app(
            spec_accumulated(lines, rd, m),
            spec_line_contrib(x, rd, m),
        ),
    decreases lines.len(),
{
    reveal_with_fuel(spec_accumulated, 2);
    if lines.len() == 0 {
        assert(lines =~= Seq::<Seq<char>>::empty());
        assert(lines.push(x).drop_first() =~= Seq::<Seq<char>>::empty());
        assert(spec_accumulated(Seq::<Seq<char>>::empty(), rd, m) is None);
    } else {
        assert(lines.push(x).drop_first() =~= lines.drop_first().push(x));
        lemma_accumulated_push(lines.drop_first(), x, rd, m);
        let c0 = spec_line_contrib(lines[0], rd, m);
        let accd = spec_accumulated(lines.drop_first(), rd, m);
        let cx = spec_line_contrib(x, rd, m);
        if c0 is Some && accd is Some && cx is Some {
            assert((c0.unwrap() + accd.unwrap()) + cx.unwrap() =~= c0.unwrap() + (accd.unwrap()
                + cx.unwrap()));
        }
        assert(lines.push(x)[0] == lines[0]);
    }
}

/// A line whose reading does not end in an ASCII letter stores its
/// candidates under the absent marker: built into an empty dictionary, the
/// full reading with no marker answers exactly the line's candidates, in
/// order, and any marker answers not-found.
pub proof fn lemma_base_form_line(l: Seq<char>)
    requires
        spec_line_entry(l),
        !is_ascii_alpha(spec_line_key(l).last()),
    ensures
        spec_accumulated(seq![l], spec_line_key(l), None) == Some(spec_line_cands(l)),
        forall|m: Option<char>|
            m is Some ==> #[trigger] spec_accumulated(seq![l], spec_line_key(l), m) is None,
    decreases 0int,
{
    reveal_with_fuel(spec_accumulated, 2);
    assert(seq![l].drop_first() =~= Seq::<Seq<char>>::empty());
    assert(seq![l][0] == l);
    assert(spec_stored_path(spec_line_key(l)) == spec_line_key(l));
    assert(spec_acc_kana(spec_line_key(l)) == None::<char>);
}

/// A line whose reading ends in ASCII letter `m` stores its candidates
/// under marker `m`, with the letter excluded from the path: built into an
/// empty dictionary, the shortened reading with marker `m` answers exactly
/// the line's candidates; the shortened reading with any other marker (the
/// absent one included), and the unshortened reading with any marker,
/// answer not-found.
pub proof fn lemma_inflected_line(l: Seq<char>)
    requires
        spec_line_entry(l),
        is_ascii_alpha(spec_line_key(l).last()),
    ensures
        ({
            let key = spec_line_key(l);
            let path = key.drop_last();
            let mk = Some(key.last());
            &&& spec_accumulated(seq![l], path, mk) == Some(spec_line_cands(l))
            &&& forall|m: Option<char>|
                m != mk ==> #[trigger] spec_accumulated(seq![l], path, m) is None
            &&& forall|m: Option<char>| #[trigger] spec_accumulated(seq![l], key, m) is None
        }),
    decreases 0int,
{
    reveal_with_fuel(spec_accumulated, 2);
    let key = spec_line_key(l);
    assert(seq![l].drop_first() =~= Seq::<Seq<char>>::empty());
    assert(seq![l][0] == l);
    assert(spec_stored_path(key) == key.drop_last());
    assert(spec_acc_kana(key) == Some(key.last()));
    assert(key.drop_last().len() < key.len());
    assert(key.drop_last() != key);
}

/// An empty reading is never found in a dictionary built from lines whose
/// stored paths are all nonempty. (A line whose whole reading is a single
/// inflection letter stores candidates under the empty path at the root;
/// such lines are the only exception.)
pub proof fn lemma_empty_reading_not_found(lines: Seq<Seq<char>>, m: Option<char>)
    requires
        forall|j: int|
            0 <= j < lines.len() ==> spec_stored_path(spec_line_key(#[trigger] lines[j])).len()
                > 0,
    ensures
        spec_accumulated(lines, Seq::<char>::empty(), m) is None,
    decreases lines.len(),
{
    if lines.len() > 0 {
        assert(spec_line_contrib(lines[0], Seq::<char>::empty(), m) is None);
        assert forall|j: int|
            0 <= j < lines.drop_first().len() implies spec_stored_path(
            spec_line_key(#[trigger] lines.drop_first()[j]),
        ).len() > 0 by {
            assert(lines.drop_first()[j] == lines[j + 1]);
        }
        lemma_empty_reading_not_found(lines.drop_first(), m);
    }
}

/// A reading-and-marker pair that no line stores is never found — in
/// particular, a strict prefix of a stored path that is not itself the
/// stored path of some line answers not-found.
pub proof fn lemma_lookup_only_stored(lines: Seq<Seq<char>>, rd: Seq<char>, m: Option<char>)
    requires
        forall|j: int|
            0 <= j < lines.len() ==> !(spec_line_entry(#[trigger] lines[j]) && spec_stored_path(
                spec_line_key(lines[j]),
            ) == rd && spec_acc_kana(spec_line_key(lines[j])) == m),
    ensures
        spec_accumulated(lines, rd, m) is None,
    decreases lines.len(),
{
    if lines.len() > 0 {
        assert(spec_line_contrib(lines[0], rd, m) is None);
        assert forall|j: int|
            0 <= j < lines.drop_first().len() implies !(spec_line_entry(
            #[trigger] lines.drop_first()[j],
        ) && spec_stored_path(spec_line_key(lines.drop_first()[j])) == rd && spec_acc_kana(
            spec_line_key(lines.drop_first()[j]),
        ) == m) by {
            assert(lines.drop_first()[j] == lines[j + 1]);
        }
        lemma_lookup_only_stored(lines.drop_first(), rd, m);
    }
}

/// One parsed entry line: the reading characters of the key token and the
/// candidate strings of the candidate token.
pub struct ParseResult {
    pub readings: Vec<char>,
    pub kanjis: Vec<String>,
}

/// Split `rest` (the candidate token) on `/`, discard empty fields and strip
/// `;`-introduced annotations.
fn parse_candidates(rest: &str) -> (out: Vec<String>)
    ensures
        strs_view(out@) == spec_cands(rest@),
{
    let n = rest.unicode_len();
    let mut out: Vec<String> = Vec::new();
    let mut p: usize = 0;
    proof {
        assert(rest@.skip(0) =~= rest@);
        assert(strs_view(out@) + spec_cands(rest@) =~= spec_cands(rest@));
    }
    while p < n
        invariant
            p <= n,
            n == rest@.len(),
            spec_cands(rest@) == strs_view(out@) + (if p <= n as int {
                spec_cands(rest@.skip(p as int))
            } else {
                Seq::<Seq<char>>::empty()
            }),
        decreases n - p,
    {
        let ghost suffix = rest@.skip(p as int);
        let mut q: usize = p;
        while q < n && rest.get_char(q) != '/'
            invariant
                p <= q <= n,
                n == rest@.len(),
                forall|j: int| p <= j < q ==> rest@[j] != '/',
            decreases n - q,
        {
            q += 1;
        }
        proof {
            assert forall|j: int| 0 <= j < q - p implies suffix[j] != '/' by {
                assert(suffix[j] == rest@[p + j]);
            }
            if q < n {
                assert(suffix[q - p] == rest@[q as int]);
            }
            lemma_char_index_is(suffix, '/', q - p);
        }
        if q > p {
            let ghost field = suffix.take(q - p);
            let mut e: usize = p;
            while e < q && rest.get_char(e) != ';'
                invariant
                    p <= e <= q <= n,
                    n == rest@.len(),
                    forall|j: int| p <= j < e ==> rest@[j] != ';',
                decreases q - e,
            {
                e += 1;
            }
            proof {
                assert forall|j: int| 0 <= j < e - p implies field[j] != ';' by {
                    assert(field[j] == rest@[p + j]);
                }
                if e < q {
                    assert(field[e - p] == rest@[e as int]);
                }
                lemma_char_index_is(field, ';', e - p);
            }
            let sub = rest.substring_char(p, e);
            let s = sub.to_owned();
            let ghost out_before = out@;
            out.push(s);
            proof {
                assert(spec_strip_annotation(field) =~= rest@.subrange(p as int, e as int));
                assert(s@ == spec_strip_annotation(field));
                assert(strs_view(out@) =~= strs_view(out_before).push(s@));
                let tail_rest = if q + 1 >= n {
                    Seq::<char>::empty()
                } else {
                    suffix.skip(q - p + 1)
                };
                if q + 1 < n {
                    assert(suffix.skip(q - p + 1) =~= rest@.skip(q as int + 1));
                }
                assert(spec_cands(suffix) == seq![spec_strip_annotation(field)] + spec_cands(
                    tail_rest,
                ));
                if q + 1 >= n {
                    assert(rest@.skip(n as int) =~= Seq::<char>::empty());
                }
                assert(strs_view(out_before).push(s@) + spec_cands(tail_rest)
                    =~= strs_view(out_before) + (seq![s@] + spec_cands(tail_rest)));
            }
        } else {
            proof {
                let tail_rest = if q + 1 >= n {
                    Seq::<char>::empty()
                } else {
                    suffix.skip(q - p + 1)
                };
                if q + 1 < n {
                    assert(suffix.skip(q - p + 1) =~= rest@.skip(q as int + 1));
                }
                assert(spec_cands(suffix) == spec_cands(tail_rest));
                if q + 1 >= n {
                    assert(rest@.skip(n as int) =~= Seq::<char>::empty());
                }
            }
        }
        p = if q < n {
            q + 1
        } else {
            n
        };
    }
    proof {
        if p <= n {
            assert(rest@.skip(p as int) =~= Seq::<char>::empty());
        }
        assert(strs_view(out@) + Seq::<Seq<char>>::empty() =~= strs_view(out@));
        assert(spec_cands(Seq::<char>::empty()) =~= Seq::<Seq<char>>::empty());
    }
    out
}

/// An ASCII letter, tested on the decoded character.
fn is_alphabet(c: &char) -> (r: bool)
    ensures
        r == is_ascii_alpha(*c),
{
    let u = *c as u32;
    (97 <= u && u <= 122) || (65 <= u && u <= 90)
}

/// Lookups of nonempty readings read a node only through its children.
proof fn lemma_lookup_same_children(n1: Node, n2: Node)
    requires
        n1.children@ == n2.children@,
    ensures
        forall|r: Seq<char>, m: Option<char>|
            r.len() > 0 ==> spec_lookup(n1, r, m) == spec_lookup(n2, r, m),
{
    assert forall|r: Seq<char>, m: Option<char>|
        r.len() > 0 implies spec_lookup(n1, r, m) == spec_lookup(n2, r, m) by {
        assert(spec_lookup(n1, r, m) == match assoc_find(n1.children@, r[0]) {
            Some(child) => spec_lookup(child, r.drop_first(), m),
            None => None,
        });
        assert(spec_lookup(n2, r, m) == match assoc_find(n2.children@, r[0]) {
            Some(child) => spec_lookup(child, r.drop_first(), m),
            None => None,
        });
    }
}

/// Lookups of the empty reading read a node only through its candidate map.
proof fn lemma_lookup_same_kanjis(n1: Node, n2: Node)
    requires
        n1.kanjis@ == n2.kanjis@,
    ensures
        forall|r: Seq<char>, m: Option<char>|
            r.len() == 0 ==> spec_lookup(n1, r, m) == spec_lookup(n2, r, m),
{
}

/// Index of the first child keyed by `c`, if any.
fn find_child_idx(children: &Vec<(char, Node)>, c: char) -> (r: Option<usize>)
    ensures
        match r {
            Some(j) => j < children@.len() && children@[j as int].0 == c && (forall|t: int|
                0 <= t < j ==> children@[t].0 != c),
            None => forall|t: int| 0 <= t < children@.len() ==> children@[t].0 != c,
        },
{
    let mut j: usize = 0;
    while j < children.len()
        invariant
            j <= children@.len(),
            forall|t: int| 0 <= t < j ==> children@[t].0 != c,
        decreases children@.len() - j,
    {
        if children[j].0 == c {
            return Some(j);
        }
        j += 1;
    }
    None
}

/// Index of the first candidate list keyed by marker `m`, if any.
fn find_kanjis_idx(kanjis: &Vec<(Option<char>, Vec<String>)>, m: &Option<char>) -> (r: Option<usize>)
    ensures
        match r {
            Some(j) => j < kanjis@.len() && kanjis@[j as int].0 == *m && (forall|t: int|
                0 <= t < j ==> kanjis@[t].0 != *m),
            None => forall|t: int| 0 <= t < kanjis@.len() ==> kanjis@[t].0 != *m,
        },
{
    let mut j: usize = 0;
    while j < kanjis.len()
        invariant
            j <= kanjis@.len(),
            forall|t: int| 0 <= t < j ==> kanjis@[t].0 != *m,
        decreases kanjis@.len() - j,
    {
        if marker_eq(&kanjis[j].0, m) {
            return Some(j);
        }
        j += 1;
    }
    None
}

/// Walk `path` from `node` starting at position `i`, creating missing
/// children, and append `kanjis` to the candidate list stored under marker
/// `acc` at the terminal node. Exactly the looked-up list for
/// `(path[i..], acc)` changes; every other lookup through `node` is
/// untouched.
fn insert_rec(node: &mut Node, path: &Vec<char>, i: usize, acc: Option<char>, kanjis: &Vec<String>)
    requires
        i <= path@.len(),
    ensures
        spec_lookup(*final(node), path@.skip(i as int), acc) == Some(
            prev_app(spec_lookup(*old(node), path@.skip(i as int), acc), strs_view(kanjis@)),
        ),
        forall|r: Seq<char>, m: Option<char>|
            !(r == path@.skip(i as int) && m == acc) ==> spec_lookup(*final(node), r, m)
                == spec_lookup(*old(node), r, m),
    decreases path@.len() - i,
{
    let ghost key = path@.skip(i as int);
    if i == path.len() {
        proof {
            assert(key =~= Seq::<char>::empty());
        }
        let ghost kanjis0 = node.kanjis@;
        let j: usize = match find_kanjis_idx(&node.kanjis, &acc) {
            Some(j) => j,
            None => {
                let ev: Vec<String> = Vec::new();
                let ghost evg = ev;
                node.kanjis.push((acc, ev));
                proof {
                    lemma_assoc_push(kanjis0, acc, evg);
                    lemma_assoc_find_none(kanjis0, acc);
                }
                node.kanjis.len() - 1
            },
        };
        let ghost mid = node.kanjis@;
        // In both branches: `j` is the first index for `acc` in `mid`, the
        // finds of `mid` agree with `kanjis0` on every other marker, and the
        // find of `kanjis0` for `acc` is the list now sitting at `j` (or was
        // absent and the list at `j` is empty).
        proof {
            lemma_assoc_find_first(mid, acc, j as int);
        }
        let entry = node.kanjis.remove(j);
        let mk = entry.0;
        let mut list = entry.1;
        let ghost list0 = list@;
        let mut t: usize = 0;
        while t < kanjis.len()
            invariant
                t <= kanjis@.len(),
                list@ == list0 + kanjis@.subrange(0, t as int),
            decreases kanjis@.len() - t,
        {
            proof {
                assert(list0 + kanjis@.subrange(0, t as int + 1) =~= (list0 + kanjis@.subrange(
                    0,
                    t as int,
                )).push(kanjis@[t as int]));
            }
            let s = kanjis[t].clone();
            list.push(s);
            t += 1;
        }
        proof {
            assert(kanjis@.subrange(0, kanjis@.len() as int) =~= kanjis@);
        }
        node.kanjis.insert(j, (mk, list));
        proof {
            assert(node.kanjis@ =~= mid.update(j as int, (acc, list)));
            lemma_assoc_update(mid, acc, j as int, list);
            assert(strs_view(list@) =~= strs_view(list0) + strs_view(kanjis@));
            if kanjis0 == mid {
                // the marker was present: its old list is `list0`
                assert(assoc_find(kanjis0, acc) == Some(mid[j as int].1));
                assert(mid[j as int].1@ == list0);
            } else {
                // the marker was absent: `list0` is empty
                assert(strs_view(list0) =~= Seq::<Seq<char>>::empty());
                assert(Seq::<Seq<char>>::empty() + strs_view(kanjis@) =~= strs_view(kanjis@));
            }
            lemma_lookup_same_children(*old(node), *node);
            assert forall|r: Seq<char>, m: Option<char>|
                !(r == key && m == acc) implies spec_lookup(*node, r, m) == spec_lookup(
                *old(node),
                r,
                m,
            ) by {
                if r.len() == 0 {
                    assert(r =~= key);
                }
            }
        }
    } else {
        let c = path[i];
        proof {
            assert(key[0] == c);
            assert(key.drop_first() =~= path@.skip(i as int + 1));
        }
        let ghost children0 = node.children@;
        let j: usize = match find_child_idx(&node.children, c) {
            Some(j) => j,
            None => {
                let nn = Node::new();
                node.children.push((c, nn));
                proof {
                    lemma_assoc_push(children0, c, nn);
                    lemma_assoc_find_none(children0, c);
                }
                node.children.len() - 1
            },
        };
        let ghost mid = node.children@;
        proof {
            lemma_assoc_find_first(mid, c, j as int);
        }
        let entry = node.children.remove(j);
        let cc = entry.0;
        let mut child = entry.1;
        let ghost child0 = child;
        insert_rec(&mut child, path, i + 1, acc, kanjis);
        node.children.insert(j, (cc, child));
        proof {
            let subkey = path@.skip(i as int + 1);
            assert(node.children@ =~= mid.update(j as int, (c, child)));
            lemma_assoc_update(mid, c, j as int, child);
            if children0 != mid {
                // a fresh empty child was linked in: nothing was stored below it
                lemma_lookup_empty_node(child0);
                lemma_assoc_push(children0, c, child0);
            }
            lemma_lookup_same_kanjis(*old(node), *node);
            // effect at the inserted key
            assert(spec_lookup(*node, key, acc) == spec_lookup(child, subkey, acc));
            if children0 == mid {
                assert(assoc_find(children0, c) == Some(child0));
                assert(spec_lookup(*old(node), key, acc) == spec_lookup(child0, subkey, acc));
            } else {
                assert(spec_lookup(*old(node), key, acc) is None);
                assert(spec_lookup(child0, subkey, acc) is None);
            }
            // frame
            assert forall|r: Seq<char>, m: Option<char>|
                !(r == key && m == acc) implies spec_lookup(*node, r, m) == spec_lookup(
                *old(node),
                r,
                m,
            ) by {
                if r.len() > 0 {
                    let rdf = r.drop_first();
                    if r[0] == c {
                        assert(spec_lookup(*node, r, m) == spec_lookup(child, rdf, m));
                        if rdf == subkey && m == acc {
                            assert(r =~= key) by {
                                assert(r.len() == key.len());
                                assert forall|t: int| 0 <= t < r.len() implies r[t] == key[t] by {
                                    if t > 0 {
                                        assert(r[t] == rdf[t - 1]);
                                        assert(subkey[t - 1] == path@[i + t]);
                                        assert(key[t] == path@[i + t]);
                                    }
                                }
                            }
                        }
                        assert(spec_lookup(child, rdf, m) == spec_lookup(child0, rdf, m));
                        if children0 == mid {
                            assert(spec_lookup(*old(node), r, m) == spec_lookup(child0, rdf, m));
                        } else {
                            assert(spec_lookup(*old(node), r, m) is None);
                            assert(spec_lookup(child0, rdf, m) is None);
                        }
                    } else {
                        assert(assoc_find(node.children@, r[0]) == assoc_find(children0, r[0]));
                        assert(spec_lookup(*node, r, m) == match assoc_find(node.children@, r[0]) {
                            Some(ch) => spec_lookup(ch, rdf, m),
                            None => None,
                        });
                        assert(spec_lookup(*old(node), r, m) == match assoc_find(
                            children0,
                            r[0],
                        ) {
                            Some(ch) => spec_lookup(ch, rdf, m),
                            None => None,
                        });
                    }
                }
            }
        }
    }
}

impl Dict {
    /// What this dictionary answers for a reading and marker.
    pub open spec fn spec_look_up(&self, readings: Seq<char>, acc: Option<char>) -> Option<
        Seq<Seq<char>>,
    > {
        spec_lookup(self.root, readings, acc)
    }

    /// An empty dictionary: every lookup is not-found.
    pub fn new() -> (r: Self)
        ensures
            forall|rd: Seq<char>, m: Option<char>| r.spec_look_up(rd, m) is None,
            r.root.children@.len() == 0,
            r.root.kanjis@.len() == 0,
    {
        Dict { root: Node::new() }
    }

    /// Descend the trie one reading character at a time; a missing child is
    /// an immediate not-found. After the full reading, probe the terminal
    /// node's candidate map with exactly the given marker.
    pub fn look_up<'a>(&'a self, readings: &Vec<char>, acc_kana: &Option<char>) -> (r: Option<
        &'a Vec<String>,
    >)
        ensures
            match r {
                Some(ks) => self.spec_look_up(readings@, *acc_kana) == Some(strs_view(ks@)),
                None => self.spec_look_up(readings@, *acc_kana) is None,
            },
    {
        let mut node: &Node = &self.root;
        let mut i: usize = 0;
        proof {
            assert(readings@.skip(0) =~= readings@);
        }
        while i < readings.len()
            invariant
                i <= readings@.len(),
                spec_lookup(self.root, readings@, *acc_kana) == spec_lookup(
                    *node,
                    readings@.skip(i as int),
                    *acc_kana,
                ),
            decreases readings@.len() - i,
        {
            let c = readings[i];
            proof {
                assert(readings@.skip(i as int)[0] == readings@[i as int]);
                assert(readings@.skip(i as int).drop_first() =~= readings@.skip(i as int + 1));
            }
            match find_child_ref(&node.children, c) {
                None => {
                    return None;
                },
                Some(child) => {
                    node = child;
                },
            }
            i += 1;
        }
        proof {
            assert(readings@.skip(i as int) =~= Seq::<char>::empty());
        }
        find_kanjis_ref(&node.kanjis, acc_kana)
    }

    /// Turn one decoded line into its key token's reading characters and its
    /// candidate strings; `None` is the "skip" signal for comment lines and
    /// lines without exactly two tokens. A `;`-introduced annotation on a
    /// candidate field is discarded, keeping only the text before it.
    pub fn parse_line(&self, line: &str) -> (r: Option<ParseResult>)
        ensures
            r is None <==> spec_line_skip(line@),
            match r {
                Some(p) => p.readings@ == spec_line_key(line@) && strs_view(p.kanjis@)
                    == spec_line_cands(line@),
                None => true,
            },
    {
        let n = line.unicode_len();
        if n >= 2 && line.get_char(0) == ';' && line.get_char(1) == ';' {
            // a comment: skip, never an error
            return None;
        }
        let mut sp: usize = 0;
        while sp < n && line.get_char(sp) != ' '
            invariant
                sp <= n,
                n == line@.len(),
                forall|j: int| 0 <= j < sp ==> line@[j] != ' ',
            decreases n - sp,
        {
            sp += 1;
        }
        proof {
            lemma_char_index_is(line@, ' ', sp as int);
        }
        if sp == n {
            // no whitespace split: skip
            return None;
        }
        let mut readings: Vec<char> = Vec::new();
        let mut t: usize = 0;
        while t < sp
            invariant
                t <= sp,
                sp < n,
                n == line@.len(),
                readings@ =~= line@.subrange(0, t as int),
            decreases sp - t,
        {
            readings.push(line.get_char(t));
            t += 1;
        }
        let rest = line.substring_char(sp + 1, n);
        let kanjis = parse_candidates(rest);
        proof {
            assert(readings@ =~= spec_line_key(line@));
        }
        Some(ParseResult { readings, kanjis })
    }

    /// Insert one dictionary-file line. A skipped line is a no-op success; a
    /// line whose reading or candidate list parses to empty is rejected as a
    /// whole. Otherwise the candidates are appended, in order, to the list
    /// stored for the line's path and marker, and no other stored list moves.
    pub fn add_dict_file_line(&mut self, line: &str) -> (r: Result<(), DictError>)
        ensures
            ({
                let lv = line@;
                let key = spec_line_key(lv);
                let cs = spec_line_cands(lv);
                if spec_line_skip(lv) {
                    r is Ok && final(self).root == old(self).root
                } else if key.len() == 0 || cs.len() == 0 {
                    &&& r matches Err(DictError::MalformedEntry(bad)) && bad@ == lv
                    &&& final(self).root == old(self).root
                } else {
                    let path = spec_stored_path(key);
                    let mk = spec_acc_kana(key);
                    &&& r is Ok
                    &&& final(self).spec_look_up(path, mk) == Some(
                        prev_app(old(self).spec_look_up(path, mk), cs),
                    )
                    &&& forall|rd: Seq<char>, m: Option<char>|
                        !(rd == path && m == mk) ==> final(self).spec_look_up(rd, m) == old(
                            self,
                        ).spec_look_up(rd, m)
                }
            }),
    {
        match self.parse_line(line) {
            None => Ok(()),
            Some(res) => {
                if res.readings.len() == 0 || res.kanjis.len() == 0 {
                    Err(DictError::MalformedEntry(line.to_owned()))
                } else {
                    let ParseResult { mut readings, kanjis } = res;
                    let last = readings[readings.len() - 1];
                    let acc: Option<char> = if is_alphabet(&last) {
                        readings.pop();
                        Some(last)
                    } else {
                        None
                    };
                    proof {
                        let key = spec_line_key(line@);
                        if is_ascii_alpha(key.last()) {
                            assert(readings@ =~= key.drop_last());
                        }
                        assert(acc == spec_acc_kana(key));
                        assert(readings@ == spec_stored_path(key));
                    }
                    insert_rec(&mut self.root, &readings, 0, acc, &kanjis);
                    proof {
                        assert(readings@.skip(0) =~= readings@);
                    }
                    Ok(())
                }
            },
        }
    }

    /// Fold `add_dict_file_line` over all lines, starting from an empty
    /// dictionary. The first malformed line aborts the whole build; no
    /// partial dictionary is ever returned.
    pub fn build(lines: &Vec<String>) -> (r: Result<Dict, DictError>)
        ensures
            ({
                let views = strs_view(lines@);
                match r {
                    Ok(d) => spec_bad_index(views) == views.len() && forall|
                        rd: Seq<char>,
                        m: Option<char>,
                    | d.spec_look_up(rd, m) == spec_accumulated(views, rd, m),
                    Err(e) => {
                        let b = spec_bad_index(views);
                        &&& b < views.len()
                        &&& e matches DictError::MalformedEntry(bad) && bad@ == views[b]
                    },
                }
            }),
    {
        let ghost views = strs_view(lines@);
        let mut dict = Dict::new();
        let mut i: usize = 0;
        proof {
            assert(views.take(0) =~= Seq::<Seq<char>>::empty());
        }
        while i < lines.len()
            invariant
                i <= lines@.len(),
                views == strs_view(lines@),
                forall|j: int| 0 <= j < i ==> spec_line_ok(views[j]),
                forall|rd: Seq<char>, m: Option<char>|
                    dict.spec_look_up(rd, m) == spec_accumulated(views.take(i as int), rd, m),
            decreases lines@.len() - i,
        {
            let ghost dict0 = dict;
            let ghost lv = lines@[i as int]@;
            let line = &lines[i];
            match dict.add_dict_file_line(line.as_str()) {
                Err(e) => {
                    proof {
                        lemma_bad_index(views);
                        assert(views[i as int] == lv);
                        assert(!spec_line_ok(lv));
                        assert(spec_bad_index(views) == i as int);
                    }
                    return Err(e);
                },
                Ok(_) => {},
            }
            proof {
                assert(views[i as int] == lv);
                assert(views.take(i as int + 1) =~= views.take(i as int).push(lv));
                assert forall|rd: Seq<char>, m: Option<char>|
                    dict.spec_look_up(rd, m) == spec_accumulated(
                    views.take(i as int + 1),
                    rd,
                    m,
                ) by {
                    lemma_accumulated_push(views.take(i as int), lv, rd, m);
                    let before = spec_accumulated(views.take(i as int), rd, m);
                    if spec_line_skip(lv) {
                        lemma_lookup_congruent(dict0.root, dict.root);
                        assert(spec_line_contrib(lv, rd, m) is None);
                    } else {
                        let key = spec_line_key(lv);
                        let path = spec_stored_path(key);
                        let mk = spec_acc_kana(key);
                        if rd == path && m == mk {
                            assert(spec_line_contrib(lv, rd, m) == Some(spec_line_cands(lv)));
                            assert(dict.spec_look_up(rd, m) == Some(
                                prev_app(dict0.spec_look_up(rd, m), spec_line_cands(lv)),
                            ));
                        } else {
                            assert(spec_line_contrib(lv, rd, m) is None);
                        }
                    }
                }
            }
            i += 1;
        }
        proof {
            assert(views.take(i as int) =~= views);
            lemma_bad_index(views);
        }
        Ok(dict)
    }
}

} // verus!
