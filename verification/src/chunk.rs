//! The chunker: cuts text into paragraph-aligned pieces of bounded size, and
//! finds the date that a file name carries.
//!
//! A paragraph is never cut: one that alone is longer than the limit becomes
//! a chunk of its own.

use vstd::prelude::*;
use vstd::slice::slice_to_vec;
use crate::text::append;
use crate::text::chars_of;
use crate::text::is_space;
use crate::text::joined;
use crate::text::lemma_trimmed_bounds;
use crate::text::lemma_trimmed_fixed;
use crate::text::occurs_at;
use crate::text::pieces;
use crate::text::split;
use crate::text::string_of;
use crate::text::texts;
use crate::text::trim;
use crate::text::trimmed;
pub use crate::transcript::parse_transcript;

verus! {

/// A chunk is kept only if it is longer than this many characters.
pub const MIN_CHUNK_CHARS: usize = 20;

/// The pattern of a date in a file name: four digits, two digits and two
/// digits, with hyphens between them.
pub const DATE_PATTERN: &'static str = "\\d{4}-\\d{2}-\\d{2}";

/// What separates paragraphs, and what joins them inside a chunk.
pub open spec fn blank_line() -> Seq<char> {
    seq!['\n', '\n']
}

/// The paragraph that a piece of text between blank lines holds, if any:
/// the piece without surrounding whitespace, unless nothing is left.
pub open spec fn paragraph_of(piece: Seq<char>) -> Option<Seq<char>> {
    if trimmed(piece).len() > 0 {
        Some(trimmed(piece))
    } else {
        None
    }
}

/// The paragraphs that a list of pieces holds, in order.
pub open spec fn paragraphs_in(parts: Seq<Seq<char>>) -> Seq<Seq<char>> {
    parts.filter_map(|p: Seq<char>| paragraph_of(p))
}

/// The paragraphs of a text, in order.
pub open spec fn paragraphs(text: Seq<char>) -> Seq<Seq<char>> {
    paragraphs_in(pieces(text, blank_line()))
}

/// The text of a chunk made of a group of paragraphs.
pub open spec fn chunk_of(group: Seq<Seq<char>>) -> Seq<char> {
    joined(group, blank_line())
}

/// The texts of a list of groups.
pub open spec fn chunk_texts(groups: Seq<Seq<Seq<char>>>) -> Seq<Seq<char>> {
    groups.map_values(|g: Seq<Seq<char>>| chunk_of(g))
}

/// Greedy grouping of `paras`, given the group `pending` that is still
/// open: a paragraph joins the open group unless the group's text would
/// then be longer than `max_chars`; in that case the group is closed and
/// the paragraph opens the next one.
pub open spec fn groups_from(
    paras: Seq<Seq<char>>,
    pending: Seq<Seq<char>>,
    max_chars: int,
) -> Seq<Seq<Seq<char>>>
    decreases paras.len(),
{
    if paras.len() == 0 {
        if pending.len() == 0 {
            Seq::empty()
        } else {
            seq![pending]
        }
    } else if pending.len() > 0 && chunk_of(pending.push(paras[0])).len() > max_chars {
        seq![pending] + groups_from(paras.drop_first(), seq![paras[0]], max_chars)
    } else {
        groups_from(paras.drop_first(), pending.push(paras[0]), max_chars)
    }
}

/// The groups of consecutive paragraphs that become chunks.
pub open spec fn groups(paras: Seq<Seq<char>>, max_chars: int) -> Seq<Seq<Seq<char>>> {
    groups_from(paras, Seq::empty(), max_chars)
}

/// Whether a chunk is long enough to be kept.
pub open spec fn is_kept(chunk: Seq<char>) -> bool {
    chunk.len() > MIN_CHUNK_CHARS
}

/// The chunks among `all` that are kept.
pub open spec fn kept(all: Seq<Seq<char>>) -> Seq<Seq<char>> {
    all.filter(|c: Seq<char>| is_kept(c))
}

/// The chunks of a text: its paragraphs, grouped greedily under the limit
/// `max_chars`, each group joined by blank lines, and only the chunks of more
/// than `MIN_CHUNK_CHARS` characters kept.
pub open spec fn chunks(text: Seq<char>, max_chars: int) -> Seq<Seq<char>> {
    kept(chunk_texts(groups(paragraphs(text), max_chars)))
}

/// Text that is not empty and has no whitespace at either end.
pub open spec fn is_tight(s: Seq<char>) -> bool {
    s.len() > 0 && !is_space(s.first()) && !is_space(s.last())
}

proof fn lemma_paragraphs_step(parts: Seq<Seq<char>>, i: int)
    requires
        0 <= i < parts.len(),
    ensures
        paragraphs_in(parts.take(i + 1)) == match paragraph_of(parts[i]) {
            Some(p) => paragraphs_in(parts.take(i)).push(p),
            None => paragraphs_in(parts.take(i)),
        },
{
    assert(parts.take(i + 1).drop_last() =~= parts.take(i));
    assert(parts.take(i + 1).last() == parts[i]);
    match paragraph_of(parts[i]) {
        Some(p) => {
            assert(paragraphs_in(parts.take(i)) + seq![p] =~= paragraphs_in(parts.take(i)).push(
                p,
            ));
        },
        None => {},
    }
}

proof fn lemma_kept_step(all: Seq<Seq<char>>, i: int)
    requires
        0 <= i < all.len(),
    ensures
        kept(all.take(i + 1)) == if is_kept(all[i]) {
            kept(all.take(i)).push(all[i])
        } else {
            kept(all.take(i))
        },
{
    assert(all.take(i + 1) =~= all.take(i).push(all[i]));
    all.take(i).lemma_filter_push(all[i], |c: Seq<char>| is_kept(c));
}

/// The length of a group's text once one more paragraph has joined it.
proof fn lemma_chunk_push(group: Seq<Seq<char>>, para: Seq<char>)
    ensures
        chunk_of(group.push(para)) == if group.len() == 0 {
            para
        } else {
            chunk_of(group) + blank_line() + para
        },
{
    assert(group.push(para).drop_last() =~= group);
}

/// Every paragraph is tight: not empty, and without whitespace at its ends.
pub proof fn lemma_paragraphs_tight(parts: Seq<Seq<char>>)
    ensures
        forall|k: int| 0 <= k < paragraphs_in(parts).len() ==> is_tight(#[trigger] paragraphs_in(parts)[k]),
    decreases parts.len(),
{
    if parts.len() > 0 {
        lemma_paragraphs_tight(parts.drop_last());
        lemma_trimmed_bounds(parts.last());
        let head = paragraphs_in(parts.drop_last());
        match paragraph_of(parts.last()) {
            Some(p) => {
                assert(paragraphs_in(parts) == head + seq![p]);
                assert forall|k: int| 0 <= k < paragraphs_in(parts).len() implies is_tight(
                    #[trigger] paragraphs_in(parts)[k],
                ) by {
                    if k < head.len() {
                        assert(paragraphs_in(parts)[k] == head[k]);
                    }
                }
            },
            None => {
                assert(paragraphs_in(parts) == head);
            },
        }
    }
}

/// The text of a group of tight paragraphs is tight, so trimming it changes
/// nothing.
pub proof fn lemma_chunk_tight(group: Seq<Seq<char>>)
    requires
        group.len() > 0,
        forall|k: int| 0 <= k < group.len() ==> is_tight(#[trigger] group[k]),
    ensures
        is_tight(chunk_of(group)),
        trimmed(chunk_of(group)) == chunk_of(group),
    decreases group.len(),
{
    if group.len() > 1 {
        lemma_chunk_tight(group.drop_last());
        let head = chunk_of(group.drop_last());
        let whole = chunk_of(group);
        assert(whole == head + blank_line() + group.last());
        assert(whole.first() == head.first());
        assert(whole.last() == group.last().last());
    }
    lemma_trimmed_fixed(chunk_of(group));
}

/// The groups hold the open group's paragraphs and then `paras`, each once
/// and in order; no group is empty; a group of more than one paragraph is not
/// longer than the limit; and what is tight going in is tight in every group.
pub proof fn lemma_groups_from(paras: Seq<Seq<char>>, pending: Seq<Seq<char>>, max_chars: int)
    requires
        pending.len() <= 1 || chunk_of(pending).len() <= max_chars,
    ensures
        groups_from(paras, pending, max_chars).flatten() == pending + paras,
        forall|k: int|
            0 <= k < groups_from(paras, pending, max_chars).len() ==> {
                let g = #[trigger] groups_from(paras, pending, max_chars)[k];
                &&& g.len() >= 1
                &&& (g.len() == 1 || chunk_of(g).len() <= max_chars)
            },
        (forall|k: int| 0 <= k < (pending + paras).len() ==> is_tight(#[trigger] (pending + paras)[k]))
            ==> forall|k: int, j: int|
            0 <= k < groups_from(paras, pending, max_chars).len() && 0 <= j < groups_from(
                paras,
                pending,
                max_chars,
            )[k].len() ==> is_tight(#[trigger] groups_from(paras, pending, max_chars)[k][j]),
    decreases paras.len(),
{
    let all = groups_from(paras, pending, max_chars);
    let tight_in = forall|k: int|
        0 <= k < (pending + paras).len() ==> is_tight(#[trigger] (pending + paras)[k]);
    if paras.len() == 0 {
        assert(pending + paras =~= pending);
        if pending.len() > 0 {
            assert(all == seq![pending]);
            all.lemma_flatten_one_element();
            assert(all.flatten() =~= pending);
            if tight_in {
                assert forall|k: int, j: int|
                    0 <= k < all.len() && 0 <= j < all[k].len() implies is_tight(
                    #[trigger] all[k][j],
                ) by {
                    assert(all[k][j] == (pending + paras)[j]);
                }
            }
        } else {
            assert(all.flatten() =~= pending);
        }
    } else {
        let p = paras[0];
        let rest = paras.drop_first();
        assert(paras =~= seq![p] + rest);
        if pending.len() > 0 && chunk_of(pending.push(p)).len() > max_chars {
            let tail = groups_from(rest, seq![p], max_chars);
            lemma_groups_from(rest, seq![p], max_chars);
            assert(all == seq![pending] + tail);
            assert(all.drop_first() =~= tail);
            assert(all.flatten() =~= pending + paras);
            assert forall|k: int| 0 <= k < all.len() implies {
                let g = #[trigger] all[k];
                &&& g.len() >= 1
                &&& (g.len() == 1 || chunk_of(g).len() <= max_chars)
            } by {
                if k > 0 {
                    assert(all[k] == tail[k - 1]);
                }
            }
            if tight_in {
                assert forall|k: int| 0 <= k < (seq![p] + rest).len() implies is_tight(
                    #[trigger] (seq![p] + rest)[k],
                ) by {
                    assert((seq![p] + rest)[k] == (pending + paras)[pending.len() + k]);
                }
                assert forall|k: int, j: int|
                    0 <= k < all.len() && 0 <= j < all[k].len() implies is_tight(
                    #[trigger] all[k][j],
                ) by {
                    if k > 0 {
                        assert(all[k] == tail[k - 1]);
                        assert(is_tight(tail[k - 1][j]));
                    } else {
                        assert(all[k][j] == (pending + paras)[j]);
                    }
                }
            }
        } else {
            lemma_chunk_push(pending, p);
            lemma_groups_from(rest, pending.push(p), max_chars);
            assert(pending.push(p) + rest =~= pending + paras);
        }
    }
}

/// A text without characters has no chunks, whatever the limit.
pub proof fn lemma_empty_text_has_no_chunks(max_chars: int)
    ensures
        chunks(Seq::empty(), max_chars) == Seq::<Seq<char>>::empty(),
{
    let text = Seq::<char>::empty();
    let parts = pieces(text, blank_line());
    assert(blank_line().len() == 2);
    assert(text.subrange(0, 0) =~= text);
    assert(parts =~= seq![text]);
    assert(trimmed(text) =~= text);
    assert(parts.drop_last() =~= Seq::<Seq<char>>::empty());
    assert(paragraphs_in(Seq::<Seq<char>>::empty()) =~= Seq::<Seq<char>>::empty());
    assert(paragraph_of(parts.last()) is None);
    assert(paragraphs_in(parts) == paragraphs_in(parts.drop_last()));
    assert(paragraphs(text) =~= Seq::<Seq<char>>::empty());
    assert(chunk_texts(groups(paragraphs(text), max_chars)) =~= Seq::<Seq<char>>::empty());
    reveal(Seq::filter);
}

/// What chunking promises of every text and every limit. Each paragraph of
/// the text lies in exactly one group, and the groups in order give the
/// paragraphs back; a group whose text is longer than the limit is a single
/// paragraph; and the chunks are the texts of the groups, those of at most
/// `MIN_CHUNK_CHARS` characters left out, so each chunk is a run of paragraphs
/// with blank lines between them, and has no whitespace at its ends.
pub proof fn lemma_chunks_cover_paragraphs(text: Seq<char>, max_chars: int)
    ensures
        groups(paragraphs(text), max_chars).flatten() == paragraphs(text),
        forall|k: int|
            0 <= k < groups(paragraphs(text), max_chars).len() ==> {
                let g = #[trigger] groups(paragraphs(text), max_chars)[k];
                &&& g.len() >= 1
                &&& chunk_of(g).len() > max_chars ==> g.len() == 1
                &&& trimmed(chunk_of(g)) == chunk_of(g)
                &&& is_kept(chunk_of(g)) ==> chunks(text, max_chars).contains(chunk_of(g))
            },
        forall|i: int|
            0 <= i < chunks(text, max_chars).len() ==> {
                let c = #[trigger] chunks(text, max_chars)[i];
                &&& is_kept(c)
                &&& exists|k: int|
                    0 <= k < groups(paragraphs(text), max_chars).len() && c == chunk_of(
                        #[trigger] groups(paragraphs(text), max_chars)[k],
                    )
            },
{
    let paras = paragraphs(text);
    let gs = groups(paras, max_chars);
    let all = chunk_texts(gs);
    let pred = |c: Seq<char>| is_kept(c);
    lemma_paragraphs_tight(pieces(text, blank_line()));
    lemma_groups_from(paras, Seq::empty(), max_chars);
    assert(Seq::<Seq<char>>::empty() + paras =~= paras);
    assert forall|k: int| 0 <= k < gs.len() implies {
        let g = #[trigger] gs[k];
        &&& g.len() >= 1
        &&& chunk_of(g).len() > max_chars ==> g.len() == 1
        &&& trimmed(chunk_of(g)) == chunk_of(g)
        &&& is_kept(chunk_of(g)) ==> chunks(text, max_chars).contains(chunk_of(g))
    } by {
        let g = gs[k];
        assert forall|j: int| 0 <= j < g.len() implies is_tight(#[trigger] g[j]) by {
            assert(is_tight(gs[k][j]));
        }
        lemma_chunk_tight(g);
        if is_kept(chunk_of(g)) {
            assert(all[k] == chunk_of(g));
            all.lemma_filter_contains(pred, k);
        }
    }
    assert forall|i: int| 0 <= i < chunks(text, max_chars).len() implies {
        let c = #[trigger] chunks(text, max_chars)[i];
        &&& is_kept(c)
        &&& exists|k: int| 0 <= k < gs.len() && c == chunk_of(#[trigger] gs[k])
    } by {
        let c = chunks(text, max_chars)[i];
        all.lemma_filter_pred(pred, i);
        assert(all.filter(pred).contains(c));
        all.lemma_filter_contains_rev(pred, c);
        let k = choose|k: int| 0 <= k < all.len() && all[k] == c;
        assert(c == chunk_of(gs[k]));
    }
}

/// The paragraphs of `text`.
pub fn paragraphs_of(text: &[char]) -> (paras: Vec<Vec<char>>)
    ensures
        texts(paras@) == paragraphs(text@),
{
    let blank = blank();
    let parts = split(text, blank.as_slice());
    let mut paras: Vec<Vec<char>> = Vec::new();
    let mut i: usize = 0;
    assert(paragraphs_in(texts(parts@).take(0)) =~= Seq::<Seq<char>>::empty());
    while i < parts.len()
        invariant
            i <= parts.len(),
            texts(paras@) == paragraphs_in(texts(parts@).take(i as int)),
        decreases parts.len() - i,
    {
        let t = trim(parts[i].as_slice());
        proof {
            lemma_paragraphs_step(texts(parts@), i as int);
        }
        if t.len() > 0 {
            let ghost before = texts(paras@);
            paras.push(slice_to_vec(t));
            assert(texts(paras@) =~= before.push(t@));
        }
        i += 1;
    }
    assert(texts(parts@).take(i as int) =~= texts(parts@));
    paras
}

/// Groups the paragraphs greedily under the limit and joins each group.
pub fn pack(paras: &Vec<Vec<char>>, max_chars: usize) -> (out: Vec<Vec<char>>)
    ensures
        texts(out@) == chunk_texts(groups(texts(paras@), max_chars as int)),
{
    let blank = blank();
    let ghost all = texts(paras@);
    let ghost goal = chunk_texts(groups(all, max_chars as int));
    let ghost mut pending: Seq<Seq<char>> = Seq::empty();
    let mut out: Vec<Vec<char>> = Vec::new();
    let mut current: Vec<char> = Vec::new();
    let mut held: usize = 0;
    let mut i: usize = 0;
    assert(all.skip(0) =~= all);
    assert(texts(out@) + goal =~= goal);
    while i < paras.len()
        invariant
            i <= paras.len(),
            all == texts(paras@),
            goal == chunk_texts(groups(all, max_chars as int)),
            blank@ == blank_line(),
            current@ == chunk_of(pending),
            held == pending.len(),
            held <= i,
            texts(out@) + chunk_texts(groups_from(all.skip(i as int), pending, max_chars as int))
                == goal,
        decreases paras.len() - i,
    {
        let para = &paras[i];
        let ghost rest = all.skip(i as int);
        let ghost before = texts(out@);
        proof {
            assert(rest[0] == para@);
            assert(rest.drop_first() =~= all.skip(i + 1));
            lemma_chunk_push(pending, para@);
        }
        let grown: u128 = current.len() as u128 + 2 + para.len() as u128;
        if held > 0 && grown > max_chars as u128 {
            let ghost tail = groups_from(all.skip(i + 1), seq![para@], max_chars as int);
            out.push(current);
            current = slice_to_vec(para.as_slice());
            held = 1;
            proof {
                assert(texts(out@) =~= before.push(chunk_of(pending)));
                assert(chunk_texts(seq![pending] + tail) =~= seq![chunk_of(pending)] + chunk_texts(
                    tail,
                ));
                assert(before.push(chunk_of(pending)) + chunk_texts(tail) =~= before + (seq![
                    chunk_of(pending),
                ] + chunk_texts(tail)));
                pending = seq![para@];
            }
        } else {
            if held > 0 {
                append(&mut current, blank.as_slice());
            }
            append(&mut current, para.as_slice());
            held += 1;
            proof {
                pending = pending.push(para@);
            }
        }
        i += 1;
    }
    let ghost before = texts(out@);
    assert(all.skip(i as int) =~= Seq::<Seq<char>>::empty());
    if held > 0 {
        out.push(current);
        assert(texts(out@) =~= before.push(chunk_of(pending)));
        assert(chunk_texts(seq![pending]) =~= seq![chunk_of(pending)]);
        assert(before.push(chunk_of(pending)) =~= before + seq![chunk_of(pending)]);
    } else {
        assert(chunk_texts(Seq::<Seq<Seq<char>>>::empty()) =~= Seq::<Seq<char>>::empty());
        assert(before + Seq::<Seq<char>>::empty() =~= before);
    }
    out
}

/// Keeps the chunks of more than `MIN_CHUNK_CHARS` characters.
pub fn keep_long(all: Vec<Vec<char>>) -> (out: Vec<Vec<char>>)
    ensures
        texts(out@) == kept(texts(all@)),
{
    let mut out: Vec<Vec<char>> = Vec::new();
    let mut i: usize = 0;
    proof {
        reveal(Seq::filter);
        assert(kept(texts(all@).take(0)) =~= Seq::<Seq<char>>::empty());
    }
    while i < all.len()
        invariant
            i <= all.len(),
            texts(out@) == kept(texts(all@).take(i as int)),
        decreases all.len() - i,
    {
        proof {
            lemma_kept_step(texts(all@), i as int);
        }
        if all[i].len() > MIN_CHUNK_CHARS {
            let ghost before = texts(out@);
            out.push(slice_to_vec(all[i].as_slice()));
            assert(texts(out@) =~= before.push(all[i as int]@));
        }
        i += 1;
    }
    assert(texts(all@).take(i as int) =~= texts(all@));
    out
}

/// The chunks of `text` under the limit `max_chars`, as characters.
pub fn chunk_chars(text: &[char], max_chars: usize) -> (out: Vec<Vec<char>>)
    ensures
        texts(out@) == chunks(text@, max_chars as int),
{
    let paras = paragraphs_of(text);
    let all = pack(&paras, max_chars);
    keep_long(all)
}

/// Turns each text into a `String`.
pub fn to_strings(all: &Vec<Vec<char>>) -> (out: Vec<String>)
    ensures
        out.deep_view() == texts(all@),
{
    let mut out: Vec<String> = Vec::new();
    let mut i: usize = 0;
    while i < all.len()
        invariant
            i <= all.len(),
            out.deep_view() == texts(all@).take(i as int),
        decreases all.len() - i,
    {
        let ghost before = out.deep_view();
        out.push(string_of(all[i].as_slice()));
        assert(out.deep_view() =~= before.push(all[i as int]@));
        assert(texts(all@).take(i + 1) =~= before.push(all[i as int]@));
        i += 1;
    }
    assert(texts(all@).take(i as int) =~= texts(all@));
    out
}

/// Splits `text` into chunks for embedding.
///
/// The text is cut into paragraphs at blank lines; each paragraph is trimmed
/// and empty ones are dropped. Paragraphs are gathered in order into chunks
/// of at most `max_chars` characters, joined by blank lines; a paragraph that
/// alone is longer than `max_chars` is a chunk of its own. Chunks of
/// `MIN_CHUNK_CHARS` characters or fewer are dropped.
pub fn chunk_text(text: &str, max_chars: usize) -> (out: Vec<String>)
    ensures
        out.deep_view() == chunks(text@, max_chars as int),
        forall|i: int| 0 <= i < out.len() ==> (#[trigger] out[i])@.len() > MIN_CHUNK_CHARS,
        text@.len() == 0 ==> out.len() == 0,
{
    let chars = chars_of(text);
    let all = chunk_chars(chars.as_slice(), max_chars);
    let out = to_strings(&all);
    proof {
        lemma_chunks_cover_paragraphs(text@, max_chars as int);
        assert forall|i: int| 0 <= i < out.len() implies (#[trigger] out[i])@.len()
            > MIN_CHUNK_CHARS by {
            assert(out.deep_view()[i] == out[i]@);
            assert(is_kept(chunks(text@, max_chars as int)[i]));
        }
        if text@.len() == 0 {
            assert(text@ =~= Seq::<char>::empty());
            lemma_empty_text_has_no_chunks(max_chars as int);
            assert(out.deep_view().len() == out.len());
        }
    }
    out
}

/// The text that the regular expression `pattern` first matches in
/// `haystack`, as the `regex` crate finds it: the leftmost match. `None` if
/// nothing matches or if `pattern` is not a regular expression that the crate
/// accepts.
pub uninterp spec fn first_match(pattern: Seq<char>, haystack: Seq<char>) -> Option<Seq<char>>;

/// Compiles `pattern` with `regex::Regex::new` and searches `haystack` with
/// `regex::Regex::find`. The contract names the matched text and claims of
/// it only that it occurs in the haystack; a pattern that does not compile
/// gives `None`.
#[verifier::external_body]
fn regex_find(pattern: &str, haystack: &str) -> (found: Option<String>)
    ensures
        found.deep_view() == first_match(pattern@, haystack@),
        found matches Some(m) ==> exists|i: int| occurs_at(haystack@, m@, i),
{
    match regex::Regex::new(pattern) {
        Ok(re) => match re.find(haystack) {
            Some(m) => Some(m.as_str().to_string()),
            None => None,
        },
        Err(_) => None,
    }
}

/// The date that a file name carries: the first place in `filename`, which
/// may be anywhere in it, that matches `DATE_PATTERN`. The match is returned
/// as it stands; it need not be a date of the calendar.
pub fn extract_date(filename: &str) -> (date: Option<String>)
    ensures
        date.deep_view() == first_match(DATE_PATTERN@, filename@),
        date matches Some(d) ==> exists|i: int| occurs_at(filename@, d@, i),
{
    regex_find(DATE_PATTERN, filename)
}

/// The two line feeds of a blank line.
pub fn blank() -> (v: Vec<char>)
    ensures
        v@ == blank_line(),
{
    let mut v: Vec<char> = Vec::new();
    v.push('\n');
    v.push('\n');
    assert(v@ =~= blank_line());
    v
}

} // verus!
