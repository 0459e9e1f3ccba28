//! Lists seen through the values of their items.

use vstd::prelude::*;

verus! {

/// Appends an item, stated over the values that the items stand for.
pub fn put<T: DeepView>(list: &mut Vec<T>, item: T)
    ensures
        final(list).deep_view() == old(list).deep_view().push(item.deep_view()),
        final(list)@ == old(list)@.push(item),
{
    list.push(item);
    assert(list.deep_view() =~= old(list).deep_view().push(item.deep_view()));
}

/// Moves every item of `more` to the end of `list`.
pub fn extend<T: DeepView>(list: &mut Vec<T>, more: Vec<T>)
    ensures
        final(list).deep_view() == old(list).deep_view() + more.deep_view(),
        final(list)@ == old(list)@ + more@,
{
    let mut rest = more;
    list.append(&mut rest);
    assert(list.deep_view() =~= old(list).deep_view() + more.deep_view());
}

/// The items of a list.
pub fn slice_of<T: DeepView>(list: &Vec<T>) -> (slice: &[T])
    ensures
        slice.deep_view() == list.deep_view(),
        slice@ == list@,
{
    let slice = list.as_slice();
    assert(slice.deep_view() =~= list.deep_view());
    slice
}

/// The first item that satisfies `p`.
pub open spec fn first_where<T>(items: Seq<T>, p: spec_fn(T) -> bool) -> Option<T>
    decreases items.len(),
{
    if items.len() == 0 {
        None
    } else if p(items[0]) {
        Some(items[0])
    } else {
        first_where(items.skip(1), p)
    }
}

/// An item that satisfies `p`, with none before it that does, is the first one.
pub proof fn lemma_first_where<T>(items: Seq<T>, p: spec_fn(T) -> bool, at: int)
    requires
        0 <= at <= items.len(),
        at < items.len() ==> p(items[at]),
        forall|i: int| 0 <= i < at ==> !p(#[trigger] items[i]),
    ensures
        first_where(items, p) == (if at < items.len() {
            Some(items[at])
        } else {
            None
        }),
    decreases items.len(),
{
    if at > 0 {
        assert(!p(items[0]));
        assert forall|i: int| 0 <= i < at - 1 implies !p(#[trigger] items.skip(1)[i]) by {
            assert(items.skip(1)[i] == items[i + 1]);
        }
        lemma_first_where(items.skip(1), p, at - 1);
    }
}

/// The first item that satisfies `p` is one of the items and satisfies it; when
/// there is none, no item does.
pub proof fn lemma_first_where_is<T>(items: Seq<T>, p: spec_fn(T) -> bool)
    ensures
        match first_where(items, p) {
            Some(item) => p(item) && items.contains(item),
            None => forall|i: int| 0 <= i < items.len() ==> !p(#[trigger] items[i]),
        },
    decreases items.len(),
{
    if items.len() > 0 && !p(items[0]) {
        lemma_first_where_is(items.skip(1), p);
        match first_where(items, p) {
            Some(item) => {
                let i = choose|i: int| 0 <= i < items.skip(1).len() && items.skip(1)[i] == item;
                assert(items[i + 1] == item);
            },
            None => {
                assert forall|i: int| 0 <= i < items.len() implies !p(#[trigger] items[i]) by {
                    if i > 0 {
                        assert(items.skip(1)[i - 1] == items[i]);
                    }
                }
            },
        }
    } else if items.len() > 0 {
        assert(items[0] == items[0]);
    }
}

/// Filtering one more item keeps what was kept, and that item if it satisfies
/// `p`.
pub proof fn lemma_filter_step<T>(items: Seq<T>, p: spec_fn(T) -> bool, i: int)
    requires
        0 <= i < items.len(),
    ensures
        items.take(i + 1).filter(p) == (if p(items[i]) {
            items.take(i).filter(p).push(items[i])
        } else {
            items.take(i).filter(p)
        }),
{
    reveal(Seq::filter);
    assert(items.take(i + 1).drop_last() =~= items.take(i));
    assert(items.take(i + 1).last() == items[i]);
}

/// Nothing is kept of no items, and all of them are all.
pub proof fn lemma_filter_ends<T>(items: Seq<T>, p: spec_fn(T) -> bool)
    ensures
        items.take(0).filter(p) == Seq::<T>::empty(),
        items.take(items.len() as int) == items,
{
    reveal(Seq::filter);
    assert(items.take(items.len() as int) =~= items);
}

/// Two filters that agree on every item keep the same items.
pub proof fn lemma_filters_agree<T>(items: Seq<T>, p: spec_fn(T) -> bool, q: spec_fn(T) -> bool)
    requires
        forall|i: int| 0 <= i < items.len() ==> p(#[trigger] items[i]) == q(items[i]),
    ensures
        items.filter(p) == items.filter(q),
    decreases items.len(),
{
    reveal(Seq::filter);
    if items.len() > 0 {
        let front = items.drop_last();
        assert forall|i: int| 0 <= i < front.len() implies p(#[trigger] front[i]) == q(
            front[i],
        ) by {
            assert(front[i] == items[i]);
        }
        lemma_filters_agree(front, p, q);
        assert(p(items[items.len() - 1]) == q(items[items.len() - 1]));
    }
}

/// What a filter keeps stands in the order in which it stood.
pub proof fn lemma_filter_keeps_order<T>(
    items: Seq<T>,
    p: spec_fn(T) -> bool,
    r: spec_fn(T, T) -> bool,
)
    requires
        forall|i: int, j: int|
            0 <= i < j < items.len() ==> r(#[trigger] items[i], #[trigger] items[j]),
    ensures
        forall|i: int, j: int|
            0 <= i < j < items.filter(p).len() ==> r(
                #[trigger] items.filter(p)[i],
                #[trigger] items.filter(p)[j],
            ),
    decreases items.len(),
{
    reveal(Seq::filter);
    if items.len() > 0 {
        let front = items.drop_last();
        assert forall|i: int, j: int| 0 <= i < j < front.len() implies r(
            #[trigger] front[i],
            #[trigger] front[j],
        ) by {
            assert(front[i] == items[i] && front[j] == items[j]);
        }
        lemma_filter_keeps_order(front, p, r);
        lemma_filter_keeps(front, p);
        let kept = items.filter(p);
        let before = front.filter(p);
        assert forall|i: int, j: int| 0 <= i < j < kept.len() implies r(
            #[trigger] kept[i],
            #[trigger] kept[j],
        ) by {
            assert(kept[i] == before[i]);
            if j < before.len() {
                assert(kept[j] == before[j]);
            } else {
                assert(before.contains(before[i]));
                let k = choose|k: int| 0 <= k < front.len() && front[k] == before[i];
                assert(items[k] == kept[i] && items[items.len() - 1] == kept[j]);
            }
        }
    }
}

/// Whether an item is kept does not depend on where it stands: what a filter
/// keeps are the items that satisfy `p`.
pub proof fn lemma_filter_keeps<T>(items: Seq<T>, p: spec_fn(T) -> bool)
    ensures
        forall|item: T| #[trigger]
            items.filter(p).contains(item) <==> items.contains(item) && p(item),
        items.filter(p).len() <= items.len(),
    decreases items.len(),
{
    reveal(Seq::filter);
    if items.len() > 0 {
        let front = items.drop_last();
        lemma_filter_keeps(front, p);
        let kept = items.filter(p);
        assert forall|item: T| #[trigger] kept.contains(item) <==> items.contains(item) && p(
            item,
        ) by {
            if kept.contains(item) {
                let i = choose|i: int| 0 <= i < kept.len() && kept[i] == item;
                if i < front.filter(p).len() {
                    assert(front.filter(p)[i] == item);
                    assert(front.filter(p).contains(item));
                    let j = choose|j: int| 0 <= j < front.len() && front[j] == item;
                    assert(items[j] == item);
                } else {
                    assert(items[items.len() - 1] == item);
                }
            }
            if items.contains(item) && p(item) {
                let j = choose|j: int| 0 <= j < items.len() && items[j] == item;
                if j < front.len() {
                    assert(front[j] == item);
                    assert(front.contains(item));
                    assert(front.filter(p).contains(item));
                    let i = choose|i: int|
                        0 <= i < front.filter(p).len() && front.filter(p)[i] == item;
                    assert(kept[i] == item);
                } else {
                    assert(kept[kept.len() - 1] == item);
                }
            }
        }
    }
}

} // verus!
