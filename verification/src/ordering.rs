//! Stable sorting.

use vstd::multiset::Multiset;
use vstd::prelude::*;

verus! {

/// `item` put into a list behind those items, from the front on, that stand ahead of it.
pub open spec fn insert_in_order<A>(
    item: A,
    list: Seq<A>,
    ahead: spec_fn(A, A) -> bool,
) -> Seq<A>
    decreases list.len(),
{
    if list.len() == 0 || !ahead(list[0], item) {
        seq![item] + list
    } else {
        seq![list[0]] + insert_in_order(item, list.drop_first(), ahead)
    }
}

/// A list in order: an item that stands ahead of another comes first, and items of which neither
/// stands ahead of the other keep their places.
pub open spec fn in_order<A>(list: Seq<A>, ahead: spec_fn(A, A) -> bool) -> Seq<A>
    decreases list.len(),
{
    if list.len() == 0 {
        list
    } else {
        insert_in_order(list[0], in_order(list.drop_first(), ahead), ahead)
    }
}

/// The relation is an order that treats equals alike: no item stands ahead of itself, whatever
/// stands ahead of an item stands ahead of what that item stands ahead of, and where `a` stands
/// ahead of `c` and `b` does not, `a` stands ahead of `b`.
pub open spec fn is_ranking<A>(ahead: spec_fn(A, A) -> bool) -> bool {
    &&& forall|a: A| !#[trigger] ahead(a, a)
    &&& forall|a: A, b: A, c: A|
        #![trigger ahead(a, b), ahead(b, c)]
        ahead(a, b) && ahead(b, c) ==> ahead(a, c)
    &&& forall|a: A, b: A, c: A|
        #![trigger ahead(a, b), ahead(a, c)]
        ahead(a, c) && !ahead(b, c) ==> ahead(a, b)
}

/// No item stands ahead of one that comes before it.
pub open spec fn is_in_order<A>(list: Seq<A>, ahead: spec_fn(A, A) -> bool) -> bool {
    forall|i: int, j: int|
        #![trigger list[i], list[j]]
        0 <= i < j < list.len() ==> !ahead(list[j], list[i])
}

/// What an inserted list holds: the item and the list.
proof fn lemma_insert_multiset<A>(item: A, list: Seq<A>, ahead: spec_fn(A, A) -> bool)
    ensures
        insert_in_order(item, list, ahead).to_multiset() == list.to_multiset().insert(item),
        insert_in_order(item, list, ahead).len() == list.len() + 1,
    decreases list.len(),
{
    broadcast use vstd::seq_lib::group_to_multiset_ensures;
    broadcast use vstd::multiset::group_multiset_axioms;

    let whole = insert_in_order(item, list, ahead);
    if list.len() == 0 || !ahead(list[0], item) {
        assert(whole.remove(0) =~= list);
        assert(whole.to_multiset() =~= list.to_multiset().insert(item)) by {
            vstd::seq_lib::lemma_multiset_commutative(seq![item], list);
            assert(seq![item].to_multiset() =~= Multiset::<A>::empty().insert(item)) by {
                assert(seq![item] =~= Seq::<A>::empty().push(item));
            }
        }
    } else {
        lemma_insert_multiset(item, list.drop_first(), ahead);
        let rest = insert_in_order(item, list.drop_first(), ahead);
        vstd::seq_lib::lemma_multiset_commutative(seq![list[0]], rest);
        vstd::seq_lib::lemma_multiset_commutative(seq![list[0]], list.drop_first());
        assert(list =~= seq![list[0]] + list.drop_first());
        assert(whole.to_multiset() =~= list.to_multiset().insert(item));
    }
}

/// Insertion into a list that is in order leaves it in order.
proof fn lemma_insert_in_order<A>(item: A, list: Seq<A>, ahead: spec_fn(A, A) -> bool)
    requires
        is_ranking(ahead),
        is_in_order(list, ahead),
    ensures
        is_in_order(insert_in_order(item, list, ahead), ahead),
    decreases list.len(),
{
    let whole = insert_in_order(item, list, ahead);
    if list.len() == 0 {
        assert(whole =~= seq![item]);
    } else if !ahead(list[0], item) {
        assert forall|i: int, j: int|
            #![trigger whole[i], whole[j]]
            0 <= i < j < whole.len() implies !ahead(whole[j], whole[i]) by {
            if i == 0 {
                if j > 1 {
                    assert(!ahead(list[j - 1], list[0]));
                    if ahead(list[j - 1], item) {
                        assert(ahead(list[j - 1], list[0]));
                    }
                }
            } else {
                assert(whole[i] == list[i - 1] && whole[j] == list[j - 1]);
            }
        }
    } else {
        let tail = list.drop_first();
        let rest = insert_in_order(item, tail, ahead);
        assert(is_in_order(tail, ahead)) by {
            assert forall|i: int, j: int|
                #![trigger tail[i], tail[j]]
                0 <= i < j < tail.len() implies !ahead(tail[j], tail[i]) by {
                assert(tail[i] == list[i + 1] && tail[j] == list[j + 1]);
            }
        }
        lemma_insert_in_order(item, tail, ahead);
        lemma_insert_members(item, tail, ahead);
        assert forall|i: int, j: int|
            #![trigger whole[i], whole[j]]
            0 <= i < j < whole.len() implies !ahead(whole[j], whole[i]) by {
            assert(whole[j] == rest[j - 1]);
            if i == 0 {
                assert(rest.contains(rest[j - 1]));
                if rest[j - 1] == item {
                    if ahead(item, list[0]) {
                        assert(ahead(item, item));
                    }
                } else {
                    let k = choose|k: int| 0 <= k < tail.len() && tail[k] == rest[j - 1];
                    assert(tail[k] == list[k + 1]);
                }
            } else {
                assert(whole[i] == rest[i - 1]);
            }
        }
    }
}

/// The members of an inserted list.
proof fn lemma_insert_members<A>(item: A, list: Seq<A>, ahead: spec_fn(A, A) -> bool)
    ensures
        forall|x: A| #[trigger]
            insert_in_order(item, list, ahead).contains(x) ==> x == item || list.contains(x),
{
    broadcast use vstd::seq_lib::group_to_multiset_ensures;
    broadcast use vstd::multiset::group_multiset_axioms;

    lemma_insert_multiset(item, list, ahead);
    let whole = insert_in_order(item, list, ahead);
    assert forall|x: A| #[trigger] whole.contains(x) implies x == item || list.contains(x) by {
        assert(whole.to_multiset().count(x) > 0);
        if x != item {
            assert(list.to_multiset().count(x) > 0);
        }
    }
}

/// Insertion among items that are no equals of the item leaves their order; among equals the item
/// comes first.
proof fn lemma_insert_filter<A>(
    item: A,
    list: Seq<A>,
    ahead: spec_fn(A, A) -> bool,
    class: spec_fn(A) -> bool,
)
    requires
        forall|a: A, b: A| class(a) && class(b) ==> !#[trigger] ahead(a, b),
    ensures
        insert_in_order(item, list, ahead).filter(class) == (if class(item) {
            seq![item] + list.filter(class)
        } else {
            list.filter(class)
        }),
    decreases list.len(),
{
    lemma_filter_one(item, class);
    if list.len() == 0 || !ahead(list[0], item) {
        Seq::filter_distributes_over_add(seq![item], list, class);
        assert(Seq::<A>::empty() + list.filter(class) =~= list.filter(class));
    } else {
        let tail = list.drop_first();
        let rest = insert_in_order(item, tail, ahead);
        lemma_insert_filter(item, tail, ahead, class);
        lemma_filter_one(list[0], class);
        Seq::filter_distributes_over_add(seq![list[0]], rest, class);
        Seq::filter_distributes_over_add(seq![list[0]], tail, class);
        assert(list =~= seq![list[0]] + tail);
        if class(item) {
            assert(!class(list[0]));
            assert(Seq::<A>::empty() + rest.filter(class) =~= rest.filter(class));
            assert(Seq::<A>::empty() + tail.filter(class) =~= tail.filter(class));
        }
    }
}

/// A list of one item, filtered.
proof fn lemma_filter_one<A>(item: A, class: spec_fn(A) -> bool)
    ensures
        seq![item].filter(class) == (if class(item) {
            seq![item]
        } else {
            Seq::<A>::empty()
        }),
{
    reveal_with_fuel(Seq::filter, 2);
    assert(seq![item].drop_last() =~= Seq::<A>::empty());
    assert(Seq::<A>::empty().push(item) =~= seq![item]);
}

/// Sorting keeps every item, as often as it occurs.
pub proof fn law_sort_keeps_items<A>(list: Seq<A>, ahead: spec_fn(A, A) -> bool)
    ensures
        in_order(list, ahead).to_multiset() == list.to_multiset(),
        in_order(list, ahead).len() == list.len(),
    decreases list.len(),
{
    broadcast use vstd::seq_lib::group_to_multiset_ensures;
    broadcast use vstd::multiset::group_multiset_axioms;

    if list.len() > 0 {
        let tail = list.drop_first();
        law_sort_keeps_items(tail, ahead);
        lemma_insert_multiset(list[0], in_order(tail, ahead), ahead);
        assert(list.remove(0) =~= tail);
        assert(list.to_multiset() =~= tail.to_multiset().insert(list[0]));
    }
}

/// A sorted list is in order.
pub proof fn law_sort_orders<A>(list: Seq<A>, ahead: spec_fn(A, A) -> bool)
    requires
        is_ranking(ahead),
    ensures
        is_in_order(in_order(list, ahead), ahead),
    decreases list.len(),
{
    if list.len() > 0 {
        law_sort_orders(list.drop_first(), ahead);
        lemma_insert_in_order(list[0], in_order(list.drop_first(), ahead), ahead);
    }
}

/// Sorting is stable: the items of any class of equals stand in the sorted list as they stood in
/// the list.
pub proof fn law_sort_is_stable<A>(
    list: Seq<A>,
    ahead: spec_fn(A, A) -> bool,
    class: spec_fn(A) -> bool,
)
    requires
        forall|a: A, b: A| class(a) && class(b) ==> !#[trigger] ahead(a, b),
    ensures
        in_order(list, ahead).filter(class) == list.filter(class),
    decreases list.len(),
{
    if list.len() > 0 {
        let tail = list.drop_first();
        law_sort_is_stable(tail, ahead, class);
        lemma_insert_filter(list[0], in_order(tail, ahead), ahead, class);
        lemma_filter_one(list[0], class);
        Seq::filter_distributes_over_add(seq![list[0]], tail, class);
        assert(list =~= seq![list[0]] + tail);
        assert(Seq::<A>::empty() + tail.filter(class) =~= tail.filter(class));
    }
}

/// Insertion commutes with a mapping that keeps the relation.
proof fn lemma_insert_map<A, B>(
    item: A,
    list: Seq<A>,
    ahead: spec_fn(A, A) -> bool,
    f: spec_fn(A) -> B,
    mapped: spec_fn(B, B) -> bool,
)
    requires
        forall|a: A, b: A| #[trigger] ahead(a, b) == mapped(f(a), f(b)),
    ensures
        insert_in_order(item, list, ahead).map_values(f) == insert_in_order(
            f(item),
            list.map_values(f),
            mapped,
        ),
    decreases list.len(),
{
    let image = list.map_values(f);
    if list.len() == 0 || !ahead(list[0], item) {
        assert((seq![item] + list).map_values(f) =~= seq![f(item)] + image);
    } else {
        lemma_insert_map(item, list.drop_first(), ahead, f, mapped);
        assert(image.drop_first() =~= list.drop_first().map_values(f));
        let rest = insert_in_order(item, list.drop_first(), ahead);
        assert((seq![list[0]] + rest).map_values(f) =~= seq![f(list[0])] + rest.map_values(f));
    }
}

/// Sorting commutes with a mapping that keeps the relation.
pub proof fn lemma_sort_map<A, B>(
    list: Seq<A>,
    ahead: spec_fn(A, A) -> bool,
    f: spec_fn(A) -> B,
    mapped: spec_fn(B, B) -> bool,
)
    requires
        forall|a: A, b: A| #[trigger] ahead(a, b) == mapped(f(a), f(b)),
    ensures
        in_order(list, ahead).map_values(f) == in_order(list.map_values(f), mapped),
    decreases list.len(),
{
    if list.len() == 0 {
        assert(list.map_values(f) =~= Seq::<B>::empty());
        assert(in_order(list, ahead).map_values(f) =~= Seq::<B>::empty());
    } else {
        lemma_sort_map(list.drop_first(), ahead, f, mapped);
        assert(list.map_values(f).drop_first() =~= list.drop_first().map_values(f));
        lemma_insert_map(list[0], in_order(list.drop_first(), ahead), ahead, f, mapped);
    }
}

/// Puts an item into a list behind those items, from the front on, that stand ahead of it.
fn put_in_order<A, F: Fn(&A, &A) -> bool>(
    item: A,
    list: &mut Vec<A>,
    is_ahead: &F,
    Ghost(ahead): Ghost<spec_fn(A, A) -> bool>,
)
    requires
        forall|a: A, b: A| #[trigger] is_ahead.requires((&a, &b)),
        forall|a: A, b: A, r: bool| #[trigger] is_ahead.ensures((&a, &b), r) ==> r == ahead(a, b),
    ensures
        final(list)@ == insert_in_order(item, old(list)@, ahead),
{
    let mut at: usize = 0;
    let ghost whole = list@;
    assert(whole.skip(0) =~= whole);
    assert(whole.take(0) + insert_in_order(item, whole, ahead) =~= insert_in_order(
        item,
        whole,
        ahead,
    ));
    while at < list.len() && is_ahead(&list[at], &item)
        invariant
            forall|a: A, b: A| #[trigger] is_ahead.requires((&a, &b)),
            forall|a: A, b: A, r: bool| #[trigger]
                is_ahead.ensures((&a, &b), r) ==> r == ahead(a, b),
            list@ == whole,
            at <= list.len(),
            insert_in_order(item, whole, ahead) == whole.take(at as int) + insert_in_order(
                item,
                whole.skip(at as int),
                ahead,
            ),
        ensures
            list@ == whole,
            at <= list.len(),
            insert_in_order(item, whole, ahead) == whole.take(at as int) + insert_in_order(
                item,
                whole.skip(at as int),
                ahead,
            ),
            at < list.len() ==> !ahead(list@[at as int], item),
        decreases list.len() - at,
    {
        proof {
            let rest = whole.skip(at as int);
            assert(rest.drop_first() =~= whole.skip(at + 1));
            let placed = insert_in_order(item, whole.skip(at + 1), ahead);
            assert(whole.take(at as int) + (seq![rest[0]] + placed) =~= whole.take(at + 1)
                + placed);
        }
        at = at + 1;
    }
    list.insert(at, item);
    assert(list@ =~= whole.take(at as int) + (seq![item] + whole.skip(at as int)));
}

/// Sorts a list, stably.
pub(crate) fn sort<A, F: Fn(&A, &A) -> bool>(
    items: Vec<A>,
    is_ahead: F,
    Ghost(ahead): Ghost<spec_fn(A, A) -> bool>,
) -> (r: Vec<A>)
    requires
        forall|a: A, b: A| #[trigger] is_ahead.requires((&a, &b)),
        forall|a: A, b: A, r: bool| #[trigger] is_ahead.ensures((&a, &b), r) ==> r == ahead(a, b),
    ensures
        r@ == in_order(items@, ahead),
{
    let ghost whole = items@;
    let mut items = items;
    let mut sorted: Vec<A> = Vec::new();
    assert(whole.skip(whole.len() as int) =~= Seq::<A>::empty());
    assert(items@ =~= whole.take(whole.len() as int));
    while items.len() > 0
        invariant
            forall|a: A, b: A| #[trigger] is_ahead.requires((&a, &b)),
            forall|a: A, b: A, r: bool| #[trigger]
                is_ahead.ensures((&a, &b), r) ==> r == ahead(a, b),
            items.len() <= whole.len(),
            items@ == whole.take(items.len() as int),
            sorted@ == in_order(whole.skip(items.len() as int), ahead),
        decreases items.len(),
    {
        let ghost n = items.len();
        let next = items.pop();
        if let Some(item) = next {
            proof {
                let rest = whole.skip(n - 1);
                assert(rest[0] == item);
                assert(rest.drop_first() =~= whole.skip(n as int));
                assert(items@ =~= whole.take(n - 1));
            }
            put_in_order(item, &mut sorted, &is_ahead, Ghost(ahead));
        }
    }
    assert(whole.skip(0) =~= whole);
    sorted
}

} // verus!
