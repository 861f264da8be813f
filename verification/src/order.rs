//! Items put in order one by one. Those that are equal stay in the order they came.

use vstd::prelude::*;

verus! {

/// The first place, from `from` on, that an item comes before.
pub open spec fn rank_of<T>(
    ranked: Seq<T>,
    item: T,
    before: spec_fn(T, T) -> bool,
    from: int,
) -> int
    decreases ranked.len() - from,
{
    if from < 0 || from >= ranked.len() || before(item, ranked[from]) {
        from
    } else {
        rank_of(ranked, item, before, from + 1)
    }
}

/// The items in order.
pub open spec fn ranked<T>(items: Seq<T>, before: spec_fn(T, T) -> bool) -> Seq<T>
    decreases items.len(),
{
    if items.len() == 0 {
        items
    } else {
        let rest = ranked(items.drop_last(), before);
        rest.insert(rank_of(rest, items.last(), before, 0), items.last())
    }
}

/// Nothing stands behind what it comes before.
pub open spec fn is_ranked<T>(items: Seq<T>, before: spec_fn(T, T) -> bool) -> bool {
    forall|i: int, j: int|
        0 <= i < j < items.len() ==> !before(#[trigger] items[j], #[trigger] items[i])
}

/// `before` orders items as a dictionary or numbers do.
pub open spec fn is_order<T>(before: spec_fn(T, T) -> bool) -> bool {
    &&& forall|a: T, b: T| #[trigger] before(a, b) ==> !before(b, a)
    &&& forall|a: T, b: T, c: T|
        #![trigger before(a, b), before(b, c)]
        !before(b, a) && !before(c, b) ==> !before(c, a)
}

pub proof fn lemma_rank_of<T>(ranked: Seq<T>, item: T, before: spec_fn(T, T) -> bool, from: int)
    requires
        0 <= from <= ranked.len(),
    ensures
        from <= rank_of(ranked, item, before, from) <= ranked.len(),
        forall|i: int|
            from <= i < rank_of(ranked, item, before, from) ==> !before(item, #[trigger] ranked[i]),
        rank_of(ranked, item, before, from) < ranked.len() ==> before(
            item,
            ranked[rank_of(ranked, item, before, from)],
        ),
    decreases ranked.len() - from,
{
    if from < ranked.len() && !before(item, ranked[from]) {
        lemma_rank_of(ranked, item, before, from + 1);
        let place = rank_of(ranked, item, before, from);
        assert forall|i: int| from <= i < place implies !before(item, #[trigger] ranked[i]) by {
            if i > from {
                assert(from + 1 <= i);
            }
        }
    }
}

/// Putting items in order loses and invents none of them.
pub proof fn law_ranking_keeps_every_item<T>(items: Seq<T>, before: spec_fn(T, T) -> bool)
    ensures
        ranked(items, before).to_multiset() == items.to_multiset(),
        ranked(items, before).len() == items.len(),
    decreases items.len(),
{
    broadcast use vstd::seq_lib::group_to_multiset_ensures;

    if items.len() > 0 {
        let front = items.drop_last();
        let rest = ranked(front, before);
        law_ranking_keeps_every_item(front, before);
        lemma_rank_of(rest, items.last(), before, 0);
        let place = rank_of(rest, items.last(), before, 0);
        assert(items =~= front.push(items.last()));
        vstd::seq_lib::to_multiset_insert(rest, place, items.last());
    }
}

/// Items that were put in order are in order.
pub proof fn law_ranking_puts_in_order<T>(items: Seq<T>, before: spec_fn(T, T) -> bool)
    requires
        is_order(before),
    ensures
        is_ranked(ranked(items, before), before),
    decreases items.len(),
{
    if items.len() > 0 {
        let front = items.drop_last();
        let item = items.last();
        let rest = ranked(front, before);
        law_ranking_puts_in_order(front, before);
        lemma_rank_of(rest, item, before, 0);
        let place = rank_of(rest, item, before, 0);
        let all = rest.insert(place, item);
        assert forall|i: int, j: int| 0 <= i < j < all.len() implies !before(
            #[trigger] all[j],
            #[trigger] all[i],
        ) by {
            if i < place && j == place {
                assert(all[i] == rest[i]);
            } else if i == place {
                assert(all[j] == rest[j - 1]);
                assert(before(item, rest[place]));
                if j - 1 > place {
                    assert(!before(rest[j - 1], rest[place]));
                    assert(!before(rest[place], item));
                    assert(before(item, rest[place]) ==> !before(rest[place], item));
                    assert(before(rest[place], rest[j - 1]) || !before(rest[place], rest[j - 1]));
                }
            } else if j < place {
                assert(all[i] == rest[i] && all[j] == rest[j]);
            } else if i < place {
                assert(all[i] == rest[i] && all[j] == rest[j - 1]);
            } else {
                assert(all[i] == rest[i - 1] && all[j] == rest[j - 1]);
            }
        }
    }
}

} // verus!
