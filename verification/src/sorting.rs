//! Stable sorting by path.

use crate::path::HostPath;
use vstd::prelude::*;

verus! {

/// Something that stands at a path.
pub trait Located {
    /// The bytes of the path.
    spec fn location(&self) -> Seq<u8>;

    /// The path.
    fn path(&self) -> (r: &HostPath)
        ensures
            r@ == self.location(),
    ;
}

/// `items`, which is sorted, with `item` after everything that does not come after it.
pub open spec fn insert_by_path<T: Located>(items: Seq<T>, item: T) -> Seq<T>
    decreases items.len(),
{
    if items.len() > 0 && crate::path::path_less(item.location(), items.last().location()) {
        insert_by_path(items.drop_last(), item).push(items.last())
    } else {
        items.push(item)
    }
}

/// `items` in the order of their paths; items at the same path keep their order.
pub open spec fn sorted_by_path<T: Located>(items: Seq<T>) -> Seq<T>
    decreases items.len(),
{
    if items.len() == 0 {
        seq![]
    } else {
        insert_by_path(sorted_by_path(items.drop_last()), items.last())
    }
}

/// No item comes before one that stands earlier.
pub open spec fn is_sorted_by_path<T: Located>(items: Seq<T>) -> bool {
    forall|i: int, j: int|
        0 <= i < j < items.len() ==> !crate::path::path_less(
            (#[trigger] items[j]).location(),
            (#[trigger] items[i]).location(),
        )
}

/// Each item comes before those that stand later.
pub open spec fn is_strictly_sorted_by_path<T: Located>(items: Seq<T>) -> bool {
    forall|i: int, j: int|
        0 <= i < j < items.len() ==> crate::path::path_less(
            (#[trigger] items[i]).location(),
            (#[trigger] items[j]).location(),
        )
}

/// No two items stand at the same path.
pub open spec fn paths_are_distinct<T: Located>(items: Seq<T>) -> bool {
    forall|i: int, j: int|
        0 <= i < j < items.len() ==> !crate::path::same_path(
            (#[trigger] items[i]).location(),
            (#[trigger] items[j]).location(),
        )
}

/// The items of `items` that stand at `path`, in order.
pub open spec fn items_at<T: Located>(items: Seq<T>, path: Seq<u8>) -> Seq<T> {
    items.filter(|item: T| crate::path::same_path(item.location(), path))
}

/// `less` is a strict total order.
pub open spec fn is_strict_order<A>(less: spec_fn(A, A) -> bool) -> bool {
    &&& forall|a: A| !#[trigger] less(a, a)
    &&& forall|a: A, b: A| a != b ==> #[trigger] less(a, b) || less(b, a)
    &&& forall|a: A, b: A, c: A| #[trigger] less(a, b) && #[trigger] less(b, c) ==> less(a, c)
}

proof fn lemma_lex_irreflexive<A>(a: Seq<A>, less: spec_fn(A, A) -> bool)
    ensures
        !crate::path::lex_less(a, a, less),
    decreases a.len(),
{
    if a.len() > 0 {
        lemma_lex_irreflexive(a.drop_first(), less);
    }
}

proof fn lemma_lex_total<A>(a: Seq<A>, b: Seq<A>, less: spec_fn(A, A) -> bool)
    requires
        is_strict_order(less),
        a != b,
    ensures
        crate::path::lex_less(a, b, less) || crate::path::lex_less(b, a, less),
    decreases a.len(),
{
    if a.len() == 0 || b.len() == 0 {
        if a.len() == b.len() {
            assert(a =~= b);
        }
    } else if a[0] == b[0] {
        if a.drop_first() == b.drop_first() {
            assert(a =~= seq![a[0]] + a.drop_first());
            assert(b =~= seq![b[0]] + b.drop_first());
        }
        lemma_lex_total(a.drop_first(), b.drop_first(), less);
    } else {
        assert(less(a[0], b[0]) || less(b[0], a[0]));
    }
}

proof fn lemma_lex_transitive<A>(
    a: Seq<A>,
    b: Seq<A>,
    c: Seq<A>,
    less: spec_fn(A, A) -> bool,
)
    requires
        is_strict_order(less),
        crate::path::lex_less(a, b, less),
        crate::path::lex_less(b, c, less),
    ensures
        crate::path::lex_less(a, c, less),
    decreases a.len(),
{
    if a.len() > 0 {
        if a[0] == b[0] && b[0] == c[0] {
            lemma_lex_transitive(a.drop_first(), b.drop_first(), c.drop_first(), less);
        } else if a[0] == c[0] {
            assert(less(a[0], b[0]) && less(b[0], a[0]));
            assert(less(a[0], a[0]));
        }
    }
}

proof fn lemma_byte_order()
    ensures
        is_strict_order(crate::path::byte_order()),
{
}

proof fn lemma_component_order()
    ensures
        is_strict_order(crate::path::component_order()),
{
    lemma_byte_order();
    let less = crate::path::component_order();
    assert forall|a: crate::path::Component| !#[trigger] less(a, a) by {
        if let crate::path::Component::Normal(x) = a {
            lemma_lex_irreflexive(x, crate::path::byte_order());
        }
    }
    assert forall|a: crate::path::Component, b: crate::path::Component| a != b implies
        #[trigger] less(a, b) || less(b, a) by {
        if let (crate::path::Component::Normal(x), crate::path::Component::Normal(y)) = (a, b) {
            lemma_lex_total(x, y, crate::path::byte_order());
        }
    }
    assert forall|a: crate::path::Component, b: crate::path::Component, c: crate::path::Component|
        #[trigger] less(a, b) && #[trigger] less(b, c) implies less(a, c) by {
        if let (
            crate::path::Component::Normal(x),
            crate::path::Component::Normal(y),
            crate::path::Component::Normal(z),
        ) = (a, b, c) {
            lemma_lex_transitive(x, y, z, crate::path::byte_order());
        }
    }
}

/// The order of paths is strict, and any two paths are the same or one comes before the other.
pub proof fn law_paths_are_ordered(a: Seq<u8>, b: Seq<u8>, c: Seq<u8>)
    ensures
        !crate::path::path_less(a, a),
        crate::path::same_path(a, b) ==> !crate::path::path_less(a, b),
        crate::path::same_path(a, b) || crate::path::path_less(a, b) || crate::path::path_less(
            b,
            a,
        ),
        !(crate::path::path_less(a, b) && crate::path::path_less(b, a)),
        crate::path::path_less(a, b) && crate::path::path_less(b, c) ==> crate::path::path_less(
            a,
            c,
        ),
{
    let less = crate::path::component_order();
    let x = crate::path::components(a);
    let y = crate::path::components(b);
    let z = crate::path::components(c);
    lemma_component_order();
    lemma_lex_irreflexive(x, less);
    if x != y {
        lemma_lex_total(x, y, less);
    }
    if crate::path::path_less(a, b) && crate::path::path_less(b, a) {
        lemma_lex_transitive(x, y, x, less);
    }
    if crate::path::path_less(a, b) && crate::path::path_less(b, c) {
        lemma_lex_transitive(x, y, z, less);
    }
}

/// Inserting puts the item behind the last place that it does not come before.
proof fn lemma_insert_position<T: Located>(items: Seq<T>, item: T, position: int)
    requires
        0 <= position <= items.len(),
        forall|j: int|
            position <= j < items.len() ==> crate::path::path_less(
                item.location(),
                (#[trigger] items[j]).location(),
            ),
        position > 0 ==> !crate::path::path_less(
            item.location(),
            items[position - 1].location(),
        ),
    ensures
        insert_by_path(items, item) == items.insert(position, item),
    decreases items.len(),
{
    if position < items.len() {
        assert(crate::path::path_less(item.location(), items[items.len() - 1].location()));
        lemma_insert_position(items.drop_last(), item, position);
        assert(items.insert(position, item) =~= items.drop_last().insert(position, item).push(
            items.last(),
        ));
    } else {
        assert(items.insert(position, item) =~= items.push(item));
    }
}

/// Sorts by path; items at the same path keep their order.
pub fn sort_by_path<T: Located>(items: Vec<T>) -> (r: Vec<T>)
    ensures
        r@ == sorted_by_path(items@),
{
    let ghost all = items@;
    let mut sorted: Vec<T> = Vec::new();
    assert(all.take(0) =~= Seq::<T>::empty());
    for item in it: items.into_iter()
        invariant
            it.seq() == all,
            sorted@ == sorted_by_path(all.take(it.index())),
    {
        let ghost placed = sorted@;
        let mut position: usize = sorted.len();
        while position > 0 && item.path().is_before(sorted[position - 1].path())
            invariant
                position <= sorted@.len(),
                sorted@ == placed,
                forall|j: int|
                    position <= j < placed.len() ==> crate::path::path_less(
                        item.location(),
                        (#[trigger] placed[j]).location(),
                    ),
            decreases position,
        {
            position -= 1;
        }
        proof {
            lemma_insert_position(placed, item, position as int);
            assert(all.take(it.index() + 1).drop_last() =~= all.take(it.index()));
        }
        sorted.insert(position, item);
    }
    assert(all.take(all.len() as int) =~= all);
    sorted
}

/// Inserting into a sorted sequence keeps it sorted, adds the item alone, and puts it behind
/// those at its own path.
proof fn lemma_insert_sorted<T: Located>(items: Seq<T>, item: T, path: Seq<u8>)
    requires
        is_sorted_by_path(items),
    ensures
        is_sorted_by_path(insert_by_path(items, item)),
        insert_by_path(items, item).to_multiset() == items.to_multiset().insert(item),
        items_at(insert_by_path(items, item), path) == items_at(items.push(item), path),
        forall|i: int|
            0 <= i < insert_by_path(items, item).len() ==> (#[trigger] insert_by_path(
                items,
                item,
            )[i]) == item || items.contains(insert_by_path(items, item)[i]),
    decreases items.len(),
{
    broadcast use {
        vstd::seq_lib::to_multiset_build,
        vstd::seq::Seq::lemma_filter_push,
    };

    let result = insert_by_path(items, item);
    let at = |other: T| crate::path::same_path(other.location(), path);
    if items.len() > 0 && crate::path::path_less(item.location(), items.last().location()) {
        let init = items.drop_last();
        let last = items.last();
        lemma_insert_sorted(init, item, path);
        let inserted = insert_by_path(init, item);
        assert(items =~= init.push(last));
        assert(result.to_multiset() =~= items.to_multiset().insert(item));
        law_paths_are_ordered(item.location(), last.location(), path);
        assert(items_at(result, path) == items_at(items.push(item), path)) by {
            assert(!(at(item) && at(last)));
            assert(init.push(last).filter(at) == if at(last) {
                init.filter(at).push(last)
            } else {
                init.filter(at)
            });
        }
        assert forall|i: int, j: int| 0 <= i < j < result.len() implies !crate::path::path_less(
            (#[trigger] result[j]).location(),
            (#[trigger] result[i]).location(),
        ) by {
            assert(result[i] == inserted[i]);
            if j < inserted.len() {
                assert(result[j] == inserted[j]);
            } else if inserted[i] != item {
                let k = choose|k: int| 0 <= k < init.len() && init[k] == inserted[i];
                assert(items[k] == inserted[i]);
                assert(items[items.len() - 1] == last);
            }
        }
        assert forall|i: int| 0 <= i < result.len() implies (#[trigger] result[i]) == item
            || items.contains(result[i]) by {
            if i < inserted.len() {
                assert(result[i] == inserted[i]);
                if inserted[i] != item {
                    let k = choose|k: int| 0 <= k < init.len() && init[k] == inserted[i];
                    assert(items[k] == inserted[i]);
                }
            } else {
                assert(items[items.len() - 1] == last);
            }
        }
    } else {
        assert forall|i: int, j: int| 0 <= i < j < result.len() implies !crate::path::path_less(
            (#[trigger] result[j]).location(),
            (#[trigger] result[i]).location(),
        ) by {
            assert(result[i] == items[i]);
            if j < items.len() {
                assert(result[j] == items[j]);
            } else {
                let last = items[items.len() - 1];
                if i < items.len() - 1 {
                    assert(!crate::path::path_less(last.location(), items[i].location()));
                }
                law_paths_are_ordered(items[i].location(), last.location(), item.location());
                law_paths_are_ordered(item.location(), items[i].location(), last.location());
            }
        }
        assert forall|i: int| 0 <= i < result.len() implies (#[trigger] result[i]) == item
            || items.contains(result[i]) by {
            if i < items.len() {
                assert(items[i] == result[i]);
            }
        }
    }
}

/// Sorting yields the same items, none before one that it comes after, and leaves the items at
/// any one path in the order in which they stood.
pub proof fn law_sorting_is_stable<T: Located>(items: Seq<T>, path: Seq<u8>)
    ensures
        is_sorted_by_path(sorted_by_path(items)),
        sorted_by_path(items).to_multiset() == items.to_multiset(),
        items_at(sorted_by_path(items), path) == items_at(items, path),
    decreases items.len(),
{
    broadcast use {
        vstd::seq_lib::to_multiset_build,
        vstd::seq::Seq::lemma_filter_push,
    };

    if items.len() > 0 {
        let init = items.drop_last();
        law_sorting_is_stable(init, path);
        lemma_insert_sorted(sorted_by_path(init), items.last(), path);
        assert(items =~= init.push(items.last()));
        assert(sorted_by_path(items).to_multiset() =~= items.to_multiset());
    } else {
        assert(items =~= Seq::<T>::empty());
    }
}

/// Where no two items stand at the same path, their order by path is strict.
pub proof fn lemma_distinct_paths_sort_strictly<T: Located>(items: Seq<T>)
    requires
        is_sorted_by_path(items),
        paths_are_distinct(items),
    ensures
        is_strictly_sorted_by_path(items),
{
    assert forall|i: int, j: int| 0 <= i < j < items.len() implies crate::path::path_less(
        (#[trigger] items[i]).location(),
        (#[trigger] items[j]).location(),
    ) by {
        law_paths_are_ordered(items[i].location(), items[j].location(), items[i].location());
    }
}

/// Reordering leaves paths distinct.
pub proof fn lemma_distinct_paths_reordered<T: Located>(items: Seq<T>, reordered: Seq<T>)
    requires
        items.to_multiset() == reordered.to_multiset(),
        paths_are_distinct(items),
    ensures
        paths_are_distinct(reordered),
{
    items.to_multiset_ensures();
    reordered.to_multiset_ensures();
    assert(items.no_duplicates()) by {
        assert forall|i: int, j: int|
            0 <= i < items.len() && 0 <= j < items.len() && i != j implies items[i]
            != items[j] by {
            if i < j {
                assert(!crate::path::same_path(items[i].location(), items[j].location()));
            } else {
                assert(!crate::path::same_path(items[j].location(), items[i].location()));
            }
        }
    }
    items.lemma_multiset_has_no_duplicates();
    reordered.lemma_multiset_has_no_duplicates_conv();
    assert forall|i: int, j: int| 0 <= i < j < reordered.len() implies !crate::path::same_path(
        (#[trigger] reordered[i]).location(),
        (#[trigger] reordered[j]).location(),
    ) by {
        assert(reordered.contains(reordered[i]));
        assert(reordered.contains(reordered[j]));
        assert(items.to_multiset().count(reordered[i]) > 0);
        assert(items.to_multiset().count(reordered[j]) > 0);
        let p = choose|p: int| 0 <= p < items.len() && items[p] == reordered[i];
        let q = choose|q: int| 0 <= q < items.len() && items[q] == reordered[j];
        assert(reordered[i] != reordered[j]);
        if p < q {
            assert(!crate::path::same_path(items[p].location(), items[q].location()));
        } else {
            assert(!crate::path::same_path(items[q].location(), items[p].location()));
        }
    }
}

/// The same items can be put in strict order by path in one way only.
pub proof fn lemma_strict_order_is_unique<T: Located>(items: Seq<T>, reordered: Seq<T>)
    requires
        is_strictly_sorted_by_path(items),
        is_strictly_sorted_by_path(reordered),
        items.to_multiset() == reordered.to_multiset(),
    ensures
        items == reordered,
    decreases items.len(),
{
    items.to_multiset_ensures();
    reordered.to_multiset_ensures();
    assert(items.len() == reordered.len());
    if items.len() > 0 {
        let n = items.len() - 1;
        let x = items[n];
        let y = reordered[n];
        assert(items.contains(x));
        assert(reordered.contains(y));
        assert(reordered.to_multiset().count(x) > 0);
        assert(items.to_multiset().count(y) > 0);
        let p = choose|p: int| 0 <= p < reordered.len() && reordered[p] == x;
        let q = choose|q: int| 0 <= q < items.len() && items[q] == y;
        if p < n && q < n {
            assert(crate::path::path_less(reordered[p].location(), reordered[n].location()));
            assert(crate::path::path_less(items[q].location(), items[n].location()));
            law_paths_are_ordered(x.location(), y.location(), x.location());
        }
        assert(x == y);
        let init = items.drop_last();
        let other = reordered.drop_last();
        assert(items =~= init.push(x));
        assert(reordered =~= other.push(x));
        broadcast use vstd::seq_lib::to_multiset_build;

        assert(init.to_multiset() =~= items.to_multiset().remove(x));
        assert(other.to_multiset() =~= reordered.to_multiset().remove(x));
        lemma_strict_order_is_unique(init, other);
    } else {
        assert(items =~= reordered);
    }
}

/// Where an item is inserted.
proof fn lemma_insert_place<T: Located>(items: Seq<T>, item: T) -> (place: int)
    ensures
        0 <= place <= items.len(),
        forall|j: int|
            place <= j < items.len() ==> crate::path::path_less(
                item.location(),
                (#[trigger] items[j]).location(),
            ),
        place > 0 ==> !crate::path::path_less(item.location(), items[place - 1].location()),
        insert_by_path(items, item) == items.insert(place, item),
    decreases items.len(),
{
    if items.len() > 0 && crate::path::path_less(item.location(), items.last().location()) {
        let init = items.drop_last();
        let place = lemma_insert_place(init, item);
        assert forall|j: int| place <= j < items.len() implies crate::path::path_less(
            item.location(),
            (#[trigger] items[j]).location(),
        ) by {
            if j < init.len() {
                assert(init[j] == items[j]);
            }
        }
        lemma_insert_position(items, item, place);
        place
    } else {
        lemma_insert_position(items, item, items.len() as int);
        items.len() as int
    }
}

/// Into sorted items with one more among them, an item is inserted as into those without it.
proof fn lemma_insert_beside_one_more<T: Located>(sorted: Seq<T>, k: int, item: T, last: T) -> (
    place: int)
    requires
        0 <= k <= sorted.len(),
        is_sorted_by_path(sorted.insert(k, item)),
    ensures
        0 <= place <= insert_by_path(sorted, last).len(),
        insert_by_path(sorted.insert(k, item), last) == insert_by_path(sorted, last).insert(
            place,
            item,
        ),
{
    let with = sorted.insert(k, item);
    let p = lemma_insert_place(sorted, last);
    assert forall|j: int| 0 <= j < k implies with[j] == sorted[j] by {}
    assert forall|j: int| k < j < with.len() implies with[j] == sorted[j - 1] by {}
    if k < p {
        lemma_insert_position(with, last, p + 1);
        assert(with.insert(p + 1, last) =~= sorted.insert(p, last).insert(k, item));
        k
    } else if crate::path::path_less(last.location(), item.location()) {
        lemma_insert_position(with, last, p);
        assert(with.insert(p, last) =~= sorted.insert(p, last).insert(k + 1, item));
        k + 1
    } else {
        if p < k {
            assert(!crate::path::path_less(with[k].location(), with[p].location()));
            law_paths_are_ordered(item.location(), last.location(), sorted[p].location());
        }
        lemma_insert_position(with, last, k + 1);
        assert(with.insert(k + 1, last) =~= sorted.insert(k, last).insert(k, item));
        k
    }
}

/// One more item takes its place among the sorted items, which stay in order.
pub proof fn lemma_sorted_with_one_more<T: Located>(items: Seq<T>, i: int, item: T) -> (place: int)
    requires
        0 <= i <= items.len(),
    ensures
        0 <= place <= sorted_by_path(items).len(),
        sorted_by_path(items.insert(i, item)) == sorted_by_path(items).insert(place, item),
    decreases items.len(),
{
    let more = items.insert(i, item);
    if i == items.len() {
        assert(more.drop_last() =~= items);
        lemma_insert_place(sorted_by_path(items), item)
    } else {
        let init = items.drop_last();
        assert(more.drop_last() =~= init.insert(i, item));
        assert(more.last() == items.last());
        let k = lemma_sorted_with_one_more(init, i, item);
        law_sorting_is_stable(init.insert(i, item), seq![]);
        lemma_insert_beside_one_more(sorted_by_path(init), k, item, items.last())
    }
}

/// An item that is replaced by one at the same path is replaced in its place among the sorted
/// items.
pub proof fn lemma_sorted_with_one_replaced<T: Located>(items: Seq<T>, i: int, item: T) -> (place:
    int)
    requires
        0 <= i < items.len(),
        item.location() == items[i].location(),
    ensures
        0 <= place < sorted_by_path(items).len(),
        sorted_by_path(items)[place] == items[i],
        sorted_by_path(items.update(i, item)) == sorted_by_path(items).update(place, item),
    decreases items.len(),
{
    let init = items.drop_last();
    let last = items.last();
    let sorted = sorted_by_path(init);
    let changed = items.update(i, item);
    let p = lemma_insert_place(sorted, last);
    if i == items.len() - 1 {
        assert(changed.drop_last() =~= init);
        lemma_insert_position(sorted, item, p);
        assert(sorted.insert(p, item) =~= sorted.insert(p, last).update(p, item));
        p
    } else {
        assert(changed.drop_last() =~= init.update(i, item));
        let k = lemma_sorted_with_one_replaced(init, i, item);
        let with = sorted.update(k, item);
        assert forall|j: int| 0 <= j < with.len() implies (#[trigger] with[j]).location()
            == sorted[j].location() by {}
        assert forall|j: int| p <= j < with.len() implies crate::path::path_less(
            last.location(),
            (#[trigger] with[j]).location(),
        ) by {
            assert(crate::path::path_less(last.location(), sorted[j].location()));
        }
        lemma_insert_position(with, last, p);
        let place = if k < p {
            k
        } else {
            k + 1
        };
        assert(with.insert(p, last) =~= sorted.insert(p, last).update(place, item));
        place
    }
}

} // verus!
