//! Character-level text primitives: whitespace, trimming, splitting on a
//! separator and joining with one.
//!
//! Text is modelled as `Seq<char>`; lengths count characters. The executable
//! functions work on `[char]` so that every position is a character boundary.

use vstd::prelude::*;
use vstd::slice::slice_subrange;
use vstd::slice::slice_to_vec;

verus! {

/// The characters that count as whitespace: the Unicode `White_Space` set.
pub open spec fn is_space(c: char) -> bool {
    let u = c as u32;
    ||| 0x09 <= u <= 0x0D
    ||| u == 0x20
    ||| u == 0x85
    ||| u == 0xA0
    ||| u == 0x1680
    ||| 0x2000 <= u <= 0x200A
    ||| u == 0x2028
    ||| u == 0x2029
    ||| u == 0x202F
    ||| u == 0x205F
    ||| u == 0x3000
}

/// Index of the first non-whitespace character at or after `from`, or the
/// length of `s` if there is none.
pub open spec fn skip_spaces(s: Seq<char>, from: int) -> int
    decreases s.len() - from,
{
    if 0 <= from < s.len() && is_space(s[from]) {
        skip_spaces(s, from + 1)
    } else {
        from
    }
}

/// End of the window `[from, to)` once its trailing whitespace is dropped.
pub open spec fn drop_spaces(s: Seq<char>, from: int, to: int) -> int
    decreases to - from,
{
    if 0 <= from < to <= s.len() && is_space(s[to - 1]) {
        drop_spaces(s, from, to - 1)
    } else {
        to
    }
}

/// `s` without its leading and trailing whitespace.
pub open spec fn trimmed(s: Seq<char>) -> Seq<char> {
    let a = skip_spaces(s, 0);
    s.subrange(a, drop_spaces(s, a, s.len() as int))
}

/// Whether `sep` occurs in `s` at index `i`.
pub open spec fn occurs_at(s: Seq<char>, sep: Seq<char>, i: int) -> bool {
    &&& 0 <= i
    &&& i + sep.len() <= s.len()
    &&& s.subrange(i, i + sep.len()) == sep
}

/// Index of the first occurrence of `sep` in `s` at or after `from`, or the
/// length of `s` if there is none.
pub open spec fn find(s: Seq<char>, sep: Seq<char>, from: int) -> int
    decreases s.len() - from,
{
    if from < 0 || from >= s.len() || from + sep.len() > s.len() {
        s.len() as int
    } else if occurs_at(s, sep, from) {
        from
    } else {
        find(s, sep, from + 1)
    }
}

/// The pieces of `s` from index `start` on, cut at each occurrence of `sep`,
/// occurrences taken leftmost first and without overlap.
pub open spec fn pieces_from(s: Seq<char>, sep: Seq<char>, start: int) -> Seq<Seq<char>>
    decreases s.len() - start,
{
    let i = find(s, sep, start);
    if sep.len() == 0 || i < start || i + sep.len() > s.len() {
        seq![s.subrange(start, s.len() as int)]
    } else {
        seq![s.subrange(start, i)] + pieces_from(s, sep, i + sep.len())
    }
}

/// The pieces of `s` between occurrences of `sep`. There is always at least
/// one piece; an empty separator cuts nothing.
pub open spec fn pieces(s: Seq<char>, sep: Seq<char>) -> Seq<Seq<char>> {
    pieces_from(s, sep, 0)
}

/// The parts concatenated in order, with `sep` between neighbours.
pub open spec fn joined(parts: Seq<Seq<char>>, sep: Seq<char>) -> Seq<char>
    decreases parts.len(),
{
    if parts.len() == 0 {
        Seq::empty()
    } else if parts.len() == 1 {
        parts[0]
    } else {
        joined(parts.drop_last(), sep) + sep + parts.last()
    }
}

/// The texts that a list of character vectors holds.
pub open spec fn texts(v: Seq<Vec<char>>) -> Seq<Seq<char>> {
    Seq::new(v.len(), |i: int| v[i]@)
}

/// `find` never looks back, and what it finds is an occurrence.
pub proof fn lemma_find_bounds(s: Seq<char>, sep: Seq<char>, from: int)
    requires
        0 <= from <= s.len(),
    ensures
        from <= find(s, sep, from) <= s.len(),
        find(s, sep, from) < s.len() ==> occurs_at(s, sep, find(s, sep, from)),
        forall|j: int| from <= j < find(s, sep, from) ==> !occurs_at(s, sep, j),
    decreases s.len() - from,
{
    if from >= s.len() || from + sep.len() > s.len() {
        assert forall|j: int| from <= j < s.len() implies !occurs_at(s, sep, j) by {}
    } else if !occurs_at(s, sep, from) {
        lemma_find_bounds(s, sep, from + 1);
    }
}

/// Trimming takes whitespace away at both ends and nothing else: `s` is
/// whitespace, then its trimming, then whitespace again, and the trimming
/// neither starts nor ends with whitespace.
pub proof fn lemma_trimmed_bounds(s: Seq<char>)
    ensures
        trimmed(s).len() <= s.len(),
        trimmed(s).len() > 0 ==> !is_space(trimmed(s).first()) && !is_space(trimmed(s).last()),
        exists|a: int, b: int|
            {
                &&& 0 <= a <= b <= s.len()
                &&& #[trigger] s.subrange(a, b) == trimmed(s)
                &&& forall|j: int| 0 <= j < a ==> is_space(s[j])
                &&& forall|j: int| b <= j < s.len() ==> is_space(s[j])
            },
{
    let a = skip_spaces(s, 0);
    let b = drop_spaces(s, a, s.len() as int);
    lemma_skip_spaces(s, 0);
    lemma_drop_spaces(s, a, s.len() as int);
    assert(s.subrange(a, b) == trimmed(s));
}

/// Joining a first part to the parts behind it.
pub proof fn lemma_joined_front(first: Seq<char>, rest: Seq<Seq<char>>, sep: Seq<char>)
    requires
        rest.len() > 0,
    ensures
        joined(seq![first] + rest, sep) == first + sep + joined(rest, sep),
    decreases rest.len(),
{
    let all = seq![first] + rest;
    assert(all.drop_last() =~= seq![first] + rest.drop_last());
    assert(all.last() == rest.last());
    if rest.len() == 1 {
        assert(all.drop_last() =~= seq![first]);
        assert(joined(seq![first], sep) == first);
        assert(joined(rest, sep) == rest.last());
        assert(joined(all, sep) =~= first + sep + joined(rest, sep));
    } else {
        lemma_joined_front(first, rest.drop_last(), sep);
        assert(joined(all, sep) =~= first + sep + joined(rest, sep));
    }
}

/// Cutting a text at a separator and joining the pieces with it gives the
/// text back, and no piece holds the separator.
pub proof fn lemma_pieces(s: Seq<char>, sep: Seq<char>, start: int)
    requires
        0 <= start <= s.len(),
        sep.len() > 0,
    ensures
        pieces_from(s, sep, start).len() >= 1,
        joined(pieces_from(s, sep, start), sep) == s.subrange(start, s.len() as int),
        forall|k: int, i: int|
            0 <= k < pieces_from(s, sep, start).len() ==> !#[trigger] occurs_at(
                pieces_from(s, sep, start)[k],
                sep,
                i,
            ),
    decreases s.len() - start,
{
    let found = find(s, sep, start);
    let all = pieces_from(s, sep, start);
    let end = if found + sep.len() > s.len() {
        s.len() as int
    } else {
        found
    };
    let head = s.subrange(start, end);
    lemma_find_bounds(s, sep, start);
    assert forall|i: int| !#[trigger] occurs_at(head, sep, i) by {
        if occurs_at(head, sep, i) {
            assert(head.subrange(i, i + sep.len()) =~= s.subrange(start + i, start + i + sep.len()));
            assert(occurs_at(s, sep, start + i));
        }
    }
    if found + sep.len() > s.len() {
        assert(all == seq![head]);
        assert forall|k: int, i: int| 0 <= k < all.len() implies !#[trigger] occurs_at(
            all[k],
            sep,
            i,
        ) by {}
    } else {
        let next = found + sep.len();
        let rest = pieces_from(s, sep, next);
        lemma_pieces(s, sep, next);
        lemma_joined_front(head, rest, sep);
        assert(all == seq![head] + rest);
        assert(s.subrange(found, next) == sep);
        assert(head + sep + s.subrange(next, s.len() as int) =~= s.subrange(start, s.len() as int));
        assert forall|k: int, i: int| 0 <= k < all.len() implies !#[trigger] occurs_at(
            all[k],
            sep,
            i,
        ) by {
            if k > 0 {
                assert(all[k] == rest[k - 1]);
            }
        }
    }
}

proof fn lemma_skip_spaces(s: Seq<char>, from: int)
    requires
        0 <= from <= s.len(),
    ensures
        from <= skip_spaces(s, from) <= s.len(),
        skip_spaces(s, from) < s.len() ==> !is_space(s[skip_spaces(s, from)]),
        forall|j: int| from <= j < skip_spaces(s, from) ==> is_space(s[j]),
    decreases s.len() - from,
{
    if from < s.len() && is_space(s[from]) {
        lemma_skip_spaces(s, from + 1);
    }
}

proof fn lemma_drop_spaces(s: Seq<char>, from: int, to: int)
    requires
        0 <= from <= to <= s.len(),
    ensures
        from <= drop_spaces(s, from, to) <= to,
        from < drop_spaces(s, from, to) ==> !is_space(s[drop_spaces(s, from, to) - 1]),
        forall|j: int| drop_spaces(s, from, to) <= j < to ==> is_space(s[j]),
    decreases to - from,
{
    if from < to && is_space(s[to - 1]) {
        lemma_drop_spaces(s, from, to - 1);
    }
}

/// Text that is empty, or starts and ends with a non-whitespace character,
/// is its own trimming.
pub proof fn lemma_trimmed_fixed(s: Seq<char>)
    requires
        s.len() > 0 ==> !is_space(s.first()) && !is_space(s.last()),
    ensures
        trimmed(s) == s,
{
    if s.len() > 0 {
        assert(skip_spaces(s, 0) == 0);
        assert(drop_spaces(s, 0, s.len() as int) == s.len());
    }
    assert(trimmed(s) =~= s);
}

/// Tells whether `c` is whitespace.
pub fn is_whitespace(c: char) -> (b: bool)
    ensures
        b == is_space(c),
{
    let u: u32 = c as u32;
    (0x09 <= u && u <= 0x0D) || u == 0x20 || u == 0x85 || u == 0xA0 || u == 0x1680 || (0x2000 <= u
        && u <= 0x200A) || u == 0x2028 || u == 0x2029 || u == 0x202F || u == 0x205F || u == 0x3000
}

/// Removes leading and trailing whitespace.
pub fn trim(s: &[char]) -> (t: &[char])
    ensures
        t@ == trimmed(s@),
{
    let n = s.len();
    let mut a: usize = 0;
    while a < n && is_whitespace(s[a])
        invariant
            a <= n,
            n == s@.len(),
            skip_spaces(s@, a as int) == skip_spaces(s@, 0),
        decreases n - a,
    {
        a += 1;
    }
    let mut b: usize = n;
    while a < b && is_whitespace(s[b - 1])
        invariant
            a <= b <= n,
            n == s@.len(),
            drop_spaces(s@, a as int, b as int) == drop_spaces(s@, a as int, n as int),
        decreases b - a,
    {
        b -= 1;
    }
    slice_subrange(s, a, b)
}

/// Tells whether `sep` occurs in `s` at index `i`.
pub fn has_at(s: &[char], sep: &[char], i: usize) -> (b: bool)
    ensures
        b == occurs_at(s@, sep@, i as int),
{
    let n = s.len();
    let m = sep.len();
    if m > n || i > n - m {
        return false;
    }
    let mut k: usize = 0;
    while k < m
        invariant
            k <= m,
            m == sep@.len(),
            n == s@.len(),
            i + m <= n,
            forall|j: int| 0 <= j < k ==> s@[i + j] == sep@[j],
        decreases m - k,
    {
        if s[i + k] != sep[k] {
            assert(s@.subrange(i as int, i + m)[k as int] != sep@[k as int]);
            return false;
        }
        k += 1;
    }
    assert(s@.subrange(i as int, i + m) =~= sep@);
    true
}

/// Cuts `s` at each occurrence of `sep`, leftmost first.
pub fn split(s: &[char], sep: &[char]) -> (parts: Vec<Vec<char>>)
    ensures
        texts(parts@) == pieces(s@, sep@),
{
    let n = s.len();
    let m = sep.len();
    let mut parts: Vec<Vec<char>> = Vec::new();
    let mut start: usize = 0;
    let mut i: usize = 0;
    while m > 0 && m <= n && i <= n - m
        invariant
            start <= i <= n,
            n == s@.len(),
            m == sep@.len(),
            find(s@, sep@, i as int) == find(s@, sep@, start as int),
            texts(parts@) + pieces_from(s@, sep@, start as int) == pieces(s@, sep@),
        decreases n - i,
    {
        if has_at(s, sep, i) {
            let ghost before = texts(parts@);
            parts.push(slice_to_vec(slice_subrange(s, start, i)));
            assert(texts(parts@) =~= before.push(s@.subrange(start as int, i as int)));
            assert(before.push(s@.subrange(start as int, i as int)) + pieces_from(
                s@,
                sep@,
                i + m,
            ) =~= before + pieces_from(s@, sep@, start as int));
            start = i + m;
            i = start;
        } else {
            i += 1;
        }
    }
    proof {
        lemma_find_bounds(s@, sep@, i as int);
    }
    let ghost before = texts(parts@);
    parts.push(slice_to_vec(slice_subrange(s, start, n)));
    assert(texts(parts@) =~= before.push(s@.subrange(start as int, n as int)));
    assert(before.push(s@.subrange(start as int, n as int)) =~= before + pieces_from(
        s@,
        sep@,
        start as int,
    ));
    parts
}

/// Concatenates the parts with `sep` between neighbours.
pub fn join(parts: &Vec<Vec<char>>, sep: &[char]) -> (out: Vec<char>)
    ensures
        out@ == joined(texts(parts@), sep@),
{
    let mut out: Vec<char> = Vec::new();
    let mut i: usize = 0;
    while i < parts.len()
        invariant
            i <= parts.len(),
            out@ == joined(texts(parts@).take(i as int), sep@),
        decreases parts.len() - i,
    {
        if i > 0 {
            append(&mut out, sep);
        }
        append(&mut out, parts[i].as_slice());
        proof {
            let all = texts(parts@);
            assert(all.take(i + 1).drop_last() =~= all.take(i as int));
            assert(all.take(i + 1).last() == parts[i as int]@);
            if i == 0 {
                assert(out@ =~= parts[i as int]@);
            }
        }
        i += 1;
    }
    assert(texts(parts@).take(i as int) =~= texts(parts@));
    out
}

/// Appends the characters of `tail` to `out`.
pub fn append(out: &mut Vec<char>, tail: &[char])
    ensures
        final(out)@ == old(out)@ + tail@,
{
    let mut k: usize = 0;
    while k < tail.len()
        invariant
            k <= tail.len(),
            out@ == old(out)@ + tail@.take(k as int),
        decreases tail.len() - k,
    {
        out.push(tail[k]);
        assert(tail@.take(k + 1) =~= tail@.take(k as int).push(tail@[k as int]));
        k += 1;
    }
    assert(tail@.take(k as int) =~= tail@);
}

/// Tells whether `s` holds exactly the text `wanted`.
pub fn is_text(s: &String, wanted: &str) -> (b: bool)
    ensures
        b == (s@ == wanted@),
{
    let other = wanted.to_owned();
    *s == other
}

/// The characters of `s`, in order.
pub fn chars_of(s: &str) -> (v: Vec<char>)
    ensures
        v@ == s@,
{
    let mut v: Vec<char> = Vec::new();
    for c in it: s.chars()
        invariant
            v@ == it.seq().take(it.index()),
            it.seq() == s@,
    {
        v.push(c);
    }
    v
}

/// Builds a `String` from characters, by `String::from_iter` of the standard
/// library. The contract claims that the string holds exactly those
/// characters, in order.
#[verifier::external_body]
pub(crate) fn string_of(chars: &[char]) -> (s: String)
    ensures
        s@ == chars@,
{
    String::from_iter(chars.iter())
}

} // verus!
