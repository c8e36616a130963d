//! The retrieval ranker: orders what the store found for a query by
//! similarity and keeps the best.
//!
//! A similarity is one minus the cosine distance between the query and a
//! chunk, here in millionths; a higher one is better. Of two results of one
//! similarity the one that the store gave first stays first.

use vstd::prelude::*;
use vstd::string::StrSliceExecFns;

verus! {

/// The number of characters of a result that a listing shows.
pub const PREVIEW_CHARS: usize = 500;

/// One chunk found for a query.
#[derive(Debug, Clone, PartialEq, Eq)]
pub struct SearchResult {
    pub content: String,
    pub source: String,
    pub source_path: Option<String>,
    pub source_date: Option<String>,
    /// One minus the cosine distance to the query, in millionths.
    pub similarity: i64,
}

/// Why a search did not take place.
#[derive(Clone, Copy, Debug, PartialEq, Eq, Structural)]
pub enum SearchError {
    /// The number of results asked for is not positive.
    InvalidTopK(i64),
}

/// Whether candidate `a` ranks before candidate `b`: by its higher score, or
/// at equal scores by standing first.
pub open spec fn outranks(scores: Seq<i64>, a: int, b: int) -> bool {
    scores[a] > scores[b] || (scores[a] == scores[b] && a < b)
}

/// Where candidate `c` goes in `order`: behind the last candidate whose
/// score is not lower than its own.
pub open spec fn rank_slot(scores: Seq<i64>, order: Seq<int>, c: int) -> int
    decreases order.len(),
{
    if order.len() == 0 {
        0
    } else if scores[order.last()] >= scores[c] {
        order.len() as int
    } else {
        rank_slot(scores, order.drop_last(), c)
    }
}

/// The first `n` candidates, best first.
pub open spec fn ranking_of(scores: Seq<i64>, n: nat) -> Seq<int>
    decreases n,
{
    if n == 0 {
        Seq::empty()
    } else {
        let head = ranking_of(scores, (n - 1) as nat);
        head.insert(rank_slot(scores, head, n - 1), n - 1)
    }
}

/// All candidates, best first: the positions `0..scores.len()` in the order
/// of descending score, equal scores in the order of their positions.
pub open spec fn ranking(scores: Seq<i64>) -> Seq<int> {
    ranking_of(scores, scores.len())
}

/// The similarities of a list of results.
pub open spec fn similarities(results: Seq<SearchResult>) -> Seq<i64> {
    Seq::new(results.len(), |i: int| results[i].similarity)
}

/// How many results a search for the best `top_k` among `found` returns.
pub open spec fn top_len(found: nat, top_k: i64) -> nat {
    if top_k <= 0 {
        0
    } else if top_k >= found {
        found
    } else {
        top_k as nat
    }
}

proof fn lemma_rank_slot(scores: Seq<i64>, order: Seq<int>, c: int)
    ensures
        0 <= rank_slot(scores, order, c) <= order.len(),
        rank_slot(scores, order, c) > 0 ==> scores[order[rank_slot(scores, order, c) - 1]]
            >= scores[c],
        forall|j: int|
            rank_slot(scores, order, c) <= j < order.len() ==> scores[#[trigger] order[j]]
                < scores[c],
    decreases order.len(),
{
    if order.len() > 0 && scores[order.last()] < scores[c] {
        let head = order.drop_last();
        lemma_rank_slot(scores, head, c);
        assert forall|j: int| rank_slot(scores, order, c) <= j < order.len() implies scores[
            #[trigger] order[j]
        ] < scores[c] by {
            if j < head.len() {
                assert(order[j] == head[j]);
            }
        }
    }
}

/// The ranking of the first `n` candidates holds each of them once, and
/// every candidate in it ranks before those behind it.
pub proof fn lemma_ranking_of(scores: Seq<i64>, n: nat)
    requires
        n <= scores.len(),
    ensures
        ranking_of(scores, n).len() == n,
        forall|i: int| 0 <= i < n ==> 0 <= #[trigger] ranking_of(scores, n)[i] < n,
        forall|c: int| 0 <= c < n ==> ranking_of(scores, n).contains(c),
        forall|i: int, j: int|
            0 <= i < j < n ==> outranks(
                scores,
                #[trigger] ranking_of(scores, n)[i],
                #[trigger] ranking_of(scores, n)[j],
            ),
    decreases n,
{
    if n > 0 {
        let c = n - 1;
        let head = ranking_of(scores, c as nat);
        let at = rank_slot(scores, head, c);
        lemma_ranking_of(scores, c as nat);
        lemma_rank_slot(scores, head, c);
        let all = head.insert(at, c);
        assert forall|d: int| 0 <= d < n implies all.contains(d) by {
            if d == c {
                assert(all[at] == c);
            } else {
                assert(head.contains(d));
                let i = choose|i: int| 0 <= i < head.len() && head[i] == d;
                if i < at {
                    assert(all[i] == d);
                } else {
                    assert(all[i + 1] == d);
                }
            }
        }
        assert forall|i: int, j: int| 0 <= i < j < n implies outranks(
            scores,
            #[trigger] all[i],
            #[trigger] all[j],
        ) by {
            if j < at {
                assert(all[i] == head[i] && all[j] == head[j]);
            } else if j == at {
                assert(all[i] == head[i]);
                if i < at - 1 {
                    assert(outranks(scores, head[i], head[at - 1]));
                }
            } else if i == at {
                assert(all[j] == head[j - 1]);
            } else if i < at {
                assert(all[i] == head[i] && all[j] == head[j - 1]);
            } else {
                assert(all[i] == head[i - 1] && all[j] == head[j - 1]);
            }
        }
    }
}

/// What ranking promises: the ranking holds every candidate once, each
/// ranks before those behind it, and so the first `k` of it rank before all
/// that are left out.
pub proof fn lemma_ranking_is_best_first(scores: Seq<i64>, k: int)
    requires
        0 <= k <= scores.len(),
    ensures
        ranking(scores).len() == scores.len(),
        forall|c: int| 0 <= c < scores.len() ==> ranking(scores).contains(c),
        forall|i: int, j: int|
            0 <= i < j < scores.len() ==> outranks(
                scores,
                #[trigger] ranking(scores)[i],
                #[trigger] ranking(scores)[j],
            ),
        forall|i: int, c: int|
            #![trigger ranking(scores)[i], ranking(scores).take(k).contains(c)]
            0 <= i < k && 0 <= c < scores.len() && !ranking(scores).take(k).contains(c) ==> outranks(
                scores,
                ranking(scores)[i],
                c,
            ),
{
    let order = ranking(scores);
    lemma_ranking_of(scores, scores.len());
    assert forall|i: int, c: int|
        #![trigger order[i], order.take(k).contains(c)]
        0 <= i < k && 0 <= c < scores.len() && !order.take(k).contains(c) implies outranks(
        scores,
        order[i],
        c,
    ) by {
        assert(order.contains(c));
        let j = choose|j: int| 0 <= j < order.len() && order[j] == c;
        if j < k {
            assert(order.take(k)[j] == c);
        }
        assert(outranks(scores, order[i], order[j]));
    }
}

/// Checks the number of results asked for: it must be positive.
pub fn check_top_k(top_k: i64) -> (checked: Result<u64, SearchError>)
    ensures
        match checked {
            Ok(k) => top_k > 0 && k == top_k,
            Err(e) => top_k <= 0 && e == SearchError::InvalidTopK(top_k),
        },
{
    if top_k <= 0 {
        Err(SearchError::InvalidTopK(top_k))
    } else {
        Ok(top_k as u64)
    }
}

/// The positions of all candidates, best first.
pub fn rank(scores: &Vec<i64>) -> (order: Vec<usize>)
    ensures
        order.len() == scores.len(),
        forall|i: int| 0 <= i < order.len() ==> #[trigger] order[i] as int == ranking(scores@)[i],
{
    let mut order: Vec<usize> = Vec::new();
    let mut c: usize = 0;
    while c < scores.len()
        invariant
            c <= scores.len(),
            order.len() == c,
            order@.map_values(|x: usize| x as int) == ranking_of(scores@, c as nat),
        decreases scores.len() - c,
    {
        let ghost head = order@.map_values(|x: usize| x as int);
        proof {
            lemma_ranking_of(scores@, c as nat);
        }
        let mut at: usize = order.len();
        assert(head.take(at as int) =~= head);
        while at > 0 && scores[order[at - 1]] < scores[c]
            invariant
                at <= order.len(),
                c < scores.len(),
                order.len() == c,
                head == order@.map_values(|x: usize| x as int),
                forall|i: int| 0 <= i < c ==> 0 <= #[trigger] head[i] < c,
                rank_slot(scores@, head.take(at as int), c as int) == rank_slot(
                    scores@,
                    head,
                    c as int,
                ),
            decreases at,
        {
            assert(head.take(at as int).drop_last() =~= head.take(at - 1));
            assert(head[at - 1] == order[at - 1]);
            at -= 1;
        }
        proof {
            if at > 0 {
                assert(head[at - 1] == order[at - 1]);
                assert(head.take(at as int).last() == head[at - 1]);
            }
            assert(rank_slot(scores@, head, c as int) == at);
        }
        order.insert(at, c);
        assert(order@.map_values(|x: usize| x as int) =~= head.insert(at as int, c as int));
        c += 1;
    }
    assert forall|i: int| 0 <= i < order.len() implies #[trigger] order[i] as int == ranking(
        scores@,
    )[i] by {
        assert(order@.map_values(|x: usize| x as int)[i] == order[i] as int);
    }
    order
}

/// The best `top_k` of the results that the store found, best first.
///
/// `top_k` must be positive: anything else is an error, not an empty result.
/// If fewer than `top_k` were found, all of them are returned.
pub fn top_results(found: &Vec<SearchResult>, top_k: i64) -> (best: Result<
    Vec<SearchResult>,
    SearchError,
>)
    ensures
        match best {
            Ok(results) => {
                &&& top_k > 0
                &&& results.len() == top_len(found.len() as nat, top_k)
                &&& forall|i: int|
                    0 <= i < results.len() ==> #[trigger] results[i] == found[ranking(
                        similarities(found@),
                    )[i]]
            },
            Err(e) => top_k <= 0 && e == SearchError::InvalidTopK(top_k),
        },
{
    let k = match check_top_k(top_k) {
        Ok(k) => k,
        Err(e) => {
            return Err(e);
        },
    };
    let mut scores: Vec<i64> = Vec::new();
    let mut i: usize = 0;
    while i < found.len()
        invariant
            i <= found.len(),
            scores@ == similarities(found@).take(i as int),
        decreases found.len() - i,
    {
        scores.push(found[i].similarity);
        assert(scores@ =~= similarities(found@).take(i + 1));
        i += 1;
    }
    assert(scores@ =~= similarities(found@));
    let order = rank(&scores);
    let want: usize = if k >= found.len() as u64 {
        found.len()
    } else {
        k as usize
    };
    proof {
        lemma_ranking_of(scores@, scores@.len());
    }
    let mut results: Vec<SearchResult> = Vec::new();
    let mut r: usize = 0;
    while r < want
        invariant
            r <= want <= found.len(),
            results.len() == r,
            order.len() == found.len(),
            scores@ == similarities(found@),
            forall|j: int| 0 <= j < order.len() ==> #[trigger] order[j] as int == ranking(scores@)[j],
            forall|j: int| 0 <= j < found.len() ==> 0 <= #[trigger] ranking(scores@)[j] < found.len(),
            forall|j: int| 0 <= j < r ==> #[trigger] results[j] == found[ranking(scores@)[j]],
        decreases want - r,
    {
        assert(order[r as int] as int == ranking(scores@)[r as int]);
        let one = &found[order[r]];
        results.push(
            SearchResult {
                content: one.content.clone(),
                source: one.source.clone(),
                source_path: one.source_path.clone(),
                source_date: one.source_date.clone(),
                similarity: one.similarity,
            },
        );
        r += 1;
    }
    Ok(results)
}

/// The first `limit` characters of `content`, or all of it if it is shorter.
pub fn preview(content: &str, limit: usize) -> (shown: String)
    ensures
        shown@ == content@.take(if limit <= content@.len() {
            limit as int
        } else {
            content@.len() as int
        }),
{
    let n = content.unicode_len();
    let upto = if limit <= n {
        limit
    } else {
        n
    };
    let shown = content.substring_char(0, upto);
    shown.to_owned()
}

/// A result as read from a row of the store: a missing content or source
/// counts as empty text, a missing similarity as zero.
pub fn result_of_row(
    content: Option<String>,
    source: Option<String>,
    source_path: Option<String>,
    source_date: Option<String>,
    similarity: Option<i64>,
) -> (result: SearchResult)
    ensures
        result.content@ == match content {
            Some(text) => text@,
            None => Seq::<char>::empty(),
        },
        result.source@ == match source {
            Some(text) => text@,
            None => Seq::<char>::empty(),
        },
        result.source_path == source_path,
        result.source_date == source_date,
        result.similarity == match similarity {
            Some(s) => s,
            None => 0,
        },
{
    SearchResult {
        content: match content {
            Some(text) => text,
            None => String::new(),
        },
        source: match source {
            Some(text) => text,
            None => String::new(),
        },
        source_path: source_path,
        source_date: source_date,
        similarity: match similarity {
            Some(s) => s,
            None => 0,
        },
    }
}

} // verus!
