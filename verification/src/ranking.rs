//! Ordering scored topics.
//!
//! A score is an integer that stands for the confidence in a topic: a larger
//! score for a larger confidence. Topics are ranked by descending score;
//! topics with the same score keep the order in which they were given.

use vstd::prelude::*;

verus! {

/// A topic with its score.
#[derive(Clone, Debug, PartialEq, Eq)]
pub struct ScoredTopic {
    pub topic: String,
    pub score: u64,
}

/// A scored topic as values.
pub struct ScoredView {
    pub topic: Seq<char>,
    pub score: u64,
}

impl View for ScoredTopic {
    type V = ScoredView;

    open spec fn view(&self) -> ScoredView {
        ScoredView { topic: self.topic@, score: self.score }
    }
}

/// What a sequence of scored topics says.
pub open spec fn scored_views(items: Seq<ScoredTopic>) -> Seq<ScoredView> {
    items.map_values(|e: ScoredTopic| e@)
}

/// No item has a smaller score than a later one.
pub open spec fn descending(items: Seq<ScoredView>) -> bool {
    forall|i: int, j: int| 0 <= i < j < items.len() ==> items[i].score >= items[j].score
}

/// Having the given score, as a predicate for `Seq::filter`.
pub open spec fn has_score(score: u64) -> spec_fn(ScoredView) -> bool {
    |e: ScoredView| e.score == score
}

/// The items with the given score, in order.
pub open spec fn with_score(items: Seq<ScoredView>, score: u64) -> Seq<ScoredView> {
    items.filter(has_score(score))
}

/// `ranked` holds the items of `scored` by descending score, those of equal
/// score in the order that they have in `scored`.
pub open spec fn is_ranking_of(ranked: Seq<ScoredView>, scored: Seq<ScoredView>) -> bool {
    &&& descending(ranked)
    &&& ranked.to_multiset() == scored.to_multiset()
    &&& forall|s: u64| #[trigger] with_score(ranked, s) == with_score(scored, s)
}

/// Where nothing satisfies the predicate, nothing is left by the filter.
proof fn lemma_filter_none<A>(s: Seq<A>, pred: spec_fn(A) -> bool)
    requires
        forall|i: int| 0 <= i < s.len() ==> !pred(#[trigger] s[i]),
    ensures
        s.filter(pred) == Seq::<A>::empty(),
    decreases s.len(),
{
    reveal(Seq::filter);
    if s.len() > 0 {
        lemma_filter_none(s.drop_last(), pred);
    }
}

/// Inserting an item behind the items that score at least as much, and
/// before those that score less, ranks it among them.
proof fn lemma_insert_ranked(
    ranked: Seq<ScoredView>,
    at: int,
    item: ScoredView,
    scored: Seq<ScoredView>,
)
    requires
        is_ranking_of(ranked, scored),
        0 <= at <= ranked.len(),
        forall|i: int| 0 <= i < at ==> ranked[i].score >= item.score,
        forall|i: int| at <= i < ranked.len() ==> ranked[i].score < item.score,
    ensures
        is_ranking_of(ranked.insert(at, item), scored.push(item)),
{
    broadcast use vstd::seq_lib::group_to_multiset_ensures;

    let after = ranked.insert(at, item);
    let head = ranked.take(at);
    let tail = ranked.skip(at);
    assert(descending(after));
    assert(after.to_multiset() == scored.push(item).to_multiset()) by {
        assert(after.remove(at) == ranked);
        assert(after[at] == item);
        assert(after.to_multiset().count(item) > 0);
        assert(after.to_multiset() =~= ranked.to_multiset().insert(item));
    }
    assert forall|s: u64| #[trigger] with_score(after, s) == with_score(scored.push(item), s) by {
        let pred = has_score(s);
        assert(with_score(ranked, s) == with_score(scored, s));
        assert(ranked == head + tail);
        assert(after == head.push(item) + tail);
        Seq::filter_distributes_over_add(head, tail, pred);
        Seq::filter_distributes_over_add(head.push(item), tail, pred);
        head.lemma_filter_push(item, pred);
        scored.lemma_filter_push(item, pred);
        if s == item.score {
            lemma_filter_none(tail, pred);
            assert(head.filter(pred) + Seq::<ScoredView>::empty() == head.filter(pred));
            assert(head.filter(pred).push(item) + Seq::<ScoredView>::empty() == head.filter(
                pred,
            ).push(item));
        }
    }
}

/// Ranks scored topics: by descending score, topics of equal score in the
/// order in which they were given.
pub fn rank(scored: Vec<ScoredTopic>) -> (ranked: Vec<ScoredTopic>)
    ensures
        is_ranking_of(scored_views(ranked@), scored_views(scored@)),
{
    let ghost given = scored_views(scored@);
    let ghost items = scored@;
    let mut ranked: Vec<ScoredTopic> = Vec::new();
    assert(scored_views(ranked@) =~= given.take(0));
    for item in it: scored
        invariant
            it.seq() == items,
            given == scored_views(items),
            is_ranking_of(scored_views(ranked@), given.take(it.index())),
    {
        let ghost before = scored_views(ranked@);
        let mut at: usize = 0;
        while at < ranked.len() && ranked[at].score >= item.score
            invariant
                at <= ranked.len(),
                before == scored_views(ranked@),
                forall|i: int| 0 <= i < at ==> before[i].score >= item.score,
            decreases ranked.len() - at,
        {
            assert(before[at as int] == ranked[at as int]@);
            at = at + 1;
        }
        proof {
            if at < ranked.len() {
                assert(before[at as int] == ranked[at as int]@);
            }
            assert(given[it.index()] == item@);
            assert(given.take(it.index() + 1) == given.take(it.index()).push(item@));
            lemma_insert_ranked(before, at as int, item@, given.take(it.index()));
            assert(scored_views(ranked@.insert(at as int, item)) =~= before.insert(
                at as int,
                item@,
            ));
        }
        ranked.insert(at, item);
    }
    assert(given.take(given.len() as int) == given);
    ranked
}

} // verus!
