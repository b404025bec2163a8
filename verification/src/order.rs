//! The order of texts, and stable sorting by it.

use vstd::prelude::*;

use crate::text::chars_of;

verus! {

/// Whether `a` precedes `b` when characters are compared from the left by their code.
pub open spec fn precedes(a: Seq<char>, b: Seq<char>) -> bool
    decreases a.len(),
{
    if b.len() == 0 {
        false
    } else if a.len() == 0 {
        true
    } else {
        a[0] < b[0] || (a[0] == b[0] && precedes(a.drop_first(), b.drop_first()))
    }
}

/// No text precedes itself.
pub proof fn lemma_precedes_irreflexive(a: Seq<char>)
    ensures
        !precedes(a, a),
    decreases a.len(),
{
    if a.len() > 0 {
        lemma_precedes_irreflexive(a.drop_first());
    }
}

/// What precedes a predecessor precedes.
pub proof fn lemma_precedes_transitive(a: Seq<char>, b: Seq<char>, c: Seq<char>)
    requires
        precedes(a, b),
        precedes(b, c),
    ensures
        precedes(a, c),
    decreases a.len(),
{
    if a.len() > 0 && a[0] == b[0] && b[0] == c[0] {
        lemma_precedes_transitive(a.drop_first(), b.drop_first(), c.drop_first());
    }
}

/// Of two different texts one precedes the other.
pub proof fn lemma_precedes_total(a: Seq<char>, b: Seq<char>)
    ensures
        precedes(a, b) || a == b || precedes(b, a),
    decreases a.len(),
{
    if a.len() == 0 && b.len() == 0 {
        assert(a =~= b);
    } else if a.len() > 0 && b.len() > 0 && a[0] == b[0] {
        lemma_precedes_total(a.drop_first(), b.drop_first());
        if a.drop_first() == b.drop_first() {
            assert(a =~= seq![a[0]] + a.drop_first());
            assert(b =~= seq![b[0]] + b.drop_first());
        }
    }
}

/// No two texts precede each other.
pub proof fn lemma_precedes_asymmetric(a: Seq<char>, b: Seq<char>)
    requires
        precedes(a, b),
    ensures
        !precedes(b, a),
        a != b,
{
    lemma_precedes_irreflexive(a);
    if precedes(b, a) {
        lemma_precedes_transitive(a, b, a);
    }
}

/// Whether `a` precedes `b`.
pub fn chars_precede(a: &[char], b: &[char]) -> (r: bool)
    ensures
        r == precedes(a@, b@),
{
    let mut i: usize = 0;
    assert(a@.skip(0) =~= a@);
    assert(b@.skip(0) =~= b@);
    loop
        invariant
            i <= a@.len(),
            i <= b@.len(),
            precedes(a@, b@) == precedes(a@.skip(i as int), b@.skip(i as int)),
        decreases a@.len() - i,
    {
        if i >= b.len() {
            return false;
        }
        if i >= a.len() {
            return true;
        }
        if a[i] < b[i] {
            return true;
        }
        if a[i] > b[i] {
            return false;
        }
        assert(a@.skip(i as int).drop_first() =~= a@.skip(i + 1));
        assert(b@.skip(i as int).drop_first() =~= b@.skip(i + 1));
        i += 1;
    }
}

/// Whether the text `a` precedes the text `b`.
pub fn text_precedes(a: &str, b: &str) -> (r: bool)
    ensures
        r == precedes(a@, b@),
{
    let left = chars_of(a);
    let right = chars_of(b);
    chars_precede(left.as_slice(), right.as_slice())
}

/// What items are sorted by: a rank, then a text.
pub struct SortKey {
    pub rank: u128,
    pub text: Vec<char>,
}

/// The view of a [`SortKey`].
pub struct KeyView {
    pub rank: int,
    pub text: Seq<char>,
}

impl View for SortKey {
    type V = KeyView;

    open spec fn view(&self) -> KeyView {
        KeyView { rank: self.rank as int, text: self.text@ }
    }
}

/// The views of a sequence of keys.
pub open spec fn key_views(keys: Seq<SortKey>) -> Seq<KeyView> {
    Seq::new(keys.len(), |i: int| keys[i]@)
}

/// Whether key `a` is less than key `b`.
pub open spec fn key_less(a: KeyView, b: KeyView) -> bool {
    a.rank < b.rank || (a.rank == b.rank && precedes(a.text, b.text))
}

/// Whether item `a` comes before item `b`: its key is less, or neither is less and it
/// stood before it.
pub open spec fn item_before(keys: Seq<KeyView>, a: int, b: int) -> bool {
    key_less(keys[a], keys[b]) || (!key_less(keys[b], keys[a]) && a < b)
}

/// Whether `order` lists every index below `n` exactly once.
pub open spec fn is_arrangement(order: Seq<usize>, n: nat) -> bool {
    &&& order.len() == n
    &&& forall|i: int| 0 <= i < n ==> 0 <= #[trigger] order[i] < n
    &&& forall|i: int, j: int| 0 <= i < j < n ==> #[trigger] order[i] != #[trigger] order[j]
}

/// Whether `order` lists the items by key, and those of equal key as they stood.
pub open spec fn is_stable_order(keys: Seq<KeyView>, order: Seq<usize>) -> bool {
    &&& is_arrangement(order, keys.len())
    &&& forall|i: int, j: int|
        0 <= i < j < order.len() ==> item_before(
            keys,
            #[trigger] order[i] as int,
            #[trigger] order[j] as int,
        )
}

/// The order of items is transitive.
proof fn lemma_before_transitive(keys: Seq<KeyView>, a: int, b: int, c: int)
    requires
        item_before(keys, a, b),
        item_before(keys, b, c),
    ensures
        item_before(keys, a, c),
{
    let (x, y, z) = (keys[a].text, keys[b].text, keys[c].text);
    lemma_precedes_total(x, y);
    lemma_precedes_total(y, z);
    lemma_precedes_total(x, z);
    if precedes(x, y) {
        lemma_precedes_asymmetric(x, y);
        if precedes(y, z) {
            lemma_precedes_transitive(x, y, z);
        }
    }
    if precedes(y, z) {
        lemma_precedes_asymmetric(y, z);
    }
    if precedes(z, x) {
        lemma_precedes_asymmetric(z, x);
        if precedes(x, y) {
            lemma_precedes_transitive(z, x, y);
        }
        if precedes(y, z) {
            lemma_precedes_transitive(y, z, x);
        }
    }
    if precedes(x, z) {
        lemma_precedes_asymmetric(x, z);
    }
    lemma_precedes_irreflexive(x);
}

/// No two items come before each other.
proof fn lemma_before_asymmetric(keys: Seq<KeyView>, a: int, b: int)
    requires
        item_before(keys, a, b),
    ensures
        !item_before(keys, b, a),
{
    let (x, y) = (keys[a].text, keys[b].text);
    if precedes(x, y) {
        lemma_precedes_asymmetric(x, y);
    }
    if precedes(y, x) {
        lemma_precedes_asymmetric(y, x);
    }
}

/// An arrangement lists every index.
pub proof fn lemma_arrangement_is_onto(order: Seq<usize>, n: nat, x: int)
    requires
        is_arrangement(order, n),
        0 <= x < n,
    ensures
        exists|i: int| 0 <= i < n && #[trigger] order[i] == x,
{
    let listed = Seq::new(n, |i: int| order[i] as int);
    assert(listed.no_duplicates()) by {
        assert forall|i: int, j: int| 0 <= i < n && 0 <= j < n && i != j implies listed[i]
            != listed[j] by {
            if i < j {
                assert(order[i] != order[j]);
            } else {
                assert(order[j] != order[i]);
            }
        }
    }
    listed.unique_seq_to_set();
    let all = vstd::set_lib::set_int_range(0, n as int);
    vstd::set_lib::lemma_int_range(0, n as int);
    vstd::seq_lib::seq_to_set_is_finite(listed);
    assert(listed.to_set().subset_of(all)) by {
        assert forall|v: int| listed.to_set().contains(v) implies all.contains(v) by {
            let i = choose|i: int| 0 <= i < listed.len() && listed[i] == v;
            assert(0 <= order[i] < n);
        }
    }
    vstd::set_lib::lemma_subset_equality(listed.to_set(), all);
    assert(all.contains(x));
    assert(listed.to_set().contains(x));
    let i = choose|i: int| 0 <= i < listed.len() && listed[i] == x;
    assert(order[i] == x);
}

/// There is one way to list items by key with those of equal key as they stood.
pub proof fn law_stable_order_is_unique(keys: Seq<KeyView>, left: Seq<usize>, right: Seq<usize>)
    requires
        is_stable_order(keys, left),
        is_stable_order(keys, right),
    ensures
        left == right,
{
    let n = keys.len();
    assert forall|i: int| 0 <= i < n implies left[i] == right[i] by {
        lemma_same_up_to(keys, left, right, i + 1);
    }
    assert(left =~= right);
}

/// Two stable orders agree on their first `k` places.
proof fn lemma_same_up_to(keys: Seq<KeyView>, left: Seq<usize>, right: Seq<usize>, k: int)
    requires
        is_stable_order(keys, left),
        is_stable_order(keys, right),
        0 <= k <= keys.len(),
    ensures
        forall|i: int| 0 <= i < k ==> #[trigger] left[i] == right[i],
    decreases k,
{
    if k > 0 {
        let n = keys.len();
        let last = k - 1;
        lemma_same_up_to(keys, left, right, last);
        let a = left[last] as int;
        let b = right[last] as int;
        if a != b {
            lemma_arrangement_is_onto(left, n, b);
            let at = choose|i: int| 0 <= i < n && #[trigger] left[i] == b;
            if at < last {
                assert(right[at] == b);
                assert(right[at] != right[last]);
            }
            assert(item_before(keys, left[last] as int, left[at] as int));
            lemma_arrangement_is_onto(right, n, a);
            let to = choose|i: int| 0 <= i < n && #[trigger] right[i] == a;
            if to < last {
                assert(left[to] == a);
                assert(left[to] != left[last]);
            }
            assert(item_before(keys, right[last] as int, right[to] as int));
            lemma_before_asymmetric(keys, a, b);
        }
    }
}

/// The way to list items by key with those of equal key as they stood.
pub open spec fn order_of(keys: Seq<KeyView>) -> Seq<usize> {
    choose|order: Seq<usize>| is_stable_order(keys, order)
}

/// The place at or before `at` where one more item goes: after every item that its key is not
/// less than.
spec fn place_of(keys: Seq<KeyView>, order: Seq<usize>, at: int) -> int
    decreases at,
{
    if at > 0 && key_less(keys.last(), keys[order[at - 1] as int]) {
        place_of(keys, order, at - 1)
    } else {
        at
    }
}

/// The item after the place comes after the new one, the item before it before.
proof fn lemma_place_of(keys: Seq<KeyView>, order: Seq<usize>, at: int)
    requires
        keys.len() > 0,
        is_stable_order(keys.drop_last(), order),
        0 <= at <= order.len(),
    ensures
        0 <= place_of(keys, order, at) <= at,
        forall|i: int|
            place_of(keys, order, at) <= i < at ==> item_before(
                keys,
                keys.len() - 1,
                #[trigger] order[i] as int,
            ),
        forall|i: int|
            0 <= i < place_of(keys, order, at) ==> item_before(
                keys,
                #[trigger] order[i] as int,
                keys.len() - 1,
            ),
    decreases at,
{
    let n = keys.len() - 1;
    if at > 0 && key_less(keys.last(), keys[order[at - 1] as int]) {
        lemma_place_of(keys, order, at - 1);
    } else if at > 0 {
        assert forall|i: int| 0 <= i < at implies item_before(
            keys,
            #[trigger] order[i] as int,
            n,
        ) by {
            let last = order[at - 1] as int;
            assert(item_before(keys, last, n));
            if i < at - 1 {
                assert(item_before(keys.drop_last(), order[i] as int, last));
                assert(item_before(keys, order[i] as int, last));
                lemma_before_transitive(keys, order[i] as int, last, n);
            }
        }
    }
}

/// There is a way to list items by key with those of equal key as they stood.
pub proof fn lemma_order_exists(keys: Seq<KeyView>)
    requires
        keys.len() <= usize::MAX,
    ensures
        is_stable_order(keys, order_of(keys)),
    decreases keys.len(),
{
    if keys.len() == 0 {
        assert(is_stable_order(keys, Seq::<usize>::empty()));
    } else {
        let n = keys.len() - 1;
        let rest = keys.drop_last();
        lemma_order_exists(rest);
        let before = order_of(rest);
        let at = place_of(keys, before, n);
        lemma_place_of(keys, before, n);
        let order = before.insert(at, n as usize);
        assert forall|i: int, j: int| 0 <= i < j < n + 1 implies item_before(
            keys,
            #[trigger] order[i] as int,
            #[trigger] order[j] as int,
        ) && order[i] != order[j] by {
            let from_i = if i < at {
                i
            } else {
                i - 1
            };
            let from_j = if j < at {
                j
            } else {
                j - 1
            };
            if i == at {
                assert(order[j] == before[from_j]);
            } else if j == at {
                assert(order[i] == before[from_i]);
            } else {
                assert(order[i] == before[from_i]);
                assert(order[j] == before[from_j]);
                assert(item_before(rest, before[from_i] as int, before[from_j] as int));
            }
        }
        assert forall|i: int| 0 <= i < n + 1 implies 0 <= #[trigger] order[i] < n + 1 by {
            if i < at {
                assert(order[i] == before[i]);
            } else if i > at {
                assert(order[i] == before[i - 1]);
            }
        }
        assert(is_stable_order(keys, order));
    }
}

/// The items by key, those of equal key as they stood.
pub open spec fn sorted<T>(items: Seq<T>, keys: Seq<KeyView>) -> Seq<T> {
    arranged(items, order_of(keys))
}

/// Items that are arranged are the same items, each as often as before.
proof fn lemma_arranged_keeps_items<T>(items: Seq<T>, order: Seq<usize>)
    requires
        is_arrangement(order, items.len()),
    ensures
        arranged(items, order).to_multiset() == items.to_multiset(),
    decreases items.len(),
{
    let all = arranged(items, order);
    if items.len() == 0 {
        assert(all =~= items);
    } else {
        let n = items.len() - 1;
        let rest = items.drop_last();
        lemma_arrangement_is_onto(order, items.len(), n);
        let at = choose|at: int| 0 <= at < items.len() && #[trigger] order[at] == n;
        let fewer = order.remove(at);
        assert forall|i: int| 0 <= i < n implies 0 <= #[trigger] fewer[i] < n by {
            let from = if i < at {
                i
            } else {
                i + 1
            };
            assert(fewer[i] == order[from]);
            assert(order[from] != order[at]);
        }
        assert forall|i: int, j: int| 0 <= i < j < n implies #[trigger] fewer[i]
            != #[trigger] fewer[j] by {
            let from_i = if i < at {
                i
            } else {
                i + 1
            };
            let from_j = if j < at {
                j
            } else {
                j + 1
            };
            assert(order[from_i] != order[from_j]);
        }
        lemma_arranged_keeps_items(rest, fewer);
        assert(arranged(rest, fewer) =~= all.remove(at));
        assert(all[at] == items.last());
        assert(rest.push(items.last()) =~= items);
        vstd::seq_lib::to_multiset_remove(all, at);
        vstd::seq_lib::to_multiset_build(rest, items.last());
        vstd::seq_lib::to_multiset_contains(all, all[at]);
        assert(all.contains(all[at]));
        assert(all.to_multiset().remove(all[at]).insert(all[at]) =~= all.to_multiset());
    }
}

/// Sorting keeps the items, each as often as before, and no item has a lesser key than one
/// before it.
pub proof fn law_sorting_keeps_items<T>(items: Seq<T>, keys: Seq<KeyView>)
    requires
        items.len() == keys.len() <= usize::MAX,
    ensures
        sorted(items, keys).to_multiset() == items.to_multiset(),
        sorted(items, keys).len() == items.len(),
        forall|i: int, j: int|
            0 <= i < j < items.len() ==> !key_less(
                keys[#[trigger] order_of(keys)[j] as int],
                keys[#[trigger] order_of(keys)[i] as int],
            ),
{
    lemma_order_exists(keys);
    let order = order_of(keys);
    lemma_arranged_keeps_items(items, order);
    assert forall|i: int, j: int| 0 <= i < j < items.len() implies !key_less(
        keys[#[trigger] order[j] as int],
        keys[#[trigger] order[i] as int],
    ) by {
        assert(item_before(keys, order[i] as int, order[j] as int));
        lemma_before_asymmetric(keys, order[i] as int, order[j] as int);
    }
}

/// Whether the key `a` is less than the key `b`.
pub fn key_is_less(a: &SortKey, b: &SortKey) -> (r: bool)
    ensures
        r == key_less(a@, b@),
{
    a.rank < b.rank || (a.rank == b.rank && chars_precede(a.text.as_slice(), b.text.as_slice()))
}

/// Lists the items by key, those of equal key as they stood.
pub fn stable_order(keys: &Vec<SortKey>) -> (order: Vec<usize>)
    ensures
        is_stable_order(key_views(keys@), order@),
        order@ == order_of(key_views(keys@)),
{
    let ghost views = key_views(keys@);
    let mut order: Vec<usize> = Vec::new();
    let mut n: usize = 0;
    while n < keys.len()
        invariant
            n <= keys@.len(),
            views == key_views(keys@),
            is_arrangement(order@, n as nat),
            forall|i: int, j: int|
                0 <= i < j < n ==> item_before(
                    views,
                    #[trigger] order@[i] as int,
                    #[trigger] order@[j] as int,
                ),
        decreases keys@.len() - n,
    {
        let mut at: usize = n;
        while at > 0 && key_is_less(&keys[n], &keys[order[at - 1]])
            invariant
                at <= n < keys@.len(),
                views == key_views(keys@),
                is_arrangement(order@, n as nat),
                forall|i: int|
                    at <= i < n ==> item_before(views, n as int, #[trigger] order@[i] as int),
            decreases at,
        {
            at -= 1;
        }
        let ghost before = order@;
        proof {
            assert forall|i: int| 0 <= i < at implies item_before(
                views,
                #[trigger] before[i] as int,
                n as int,
            ) by {
                let last = before[at - 1] as int;
                assert(!key_less(views[n as int], views[last]));
                assert(item_before(views, last, n as int));
                if i < at - 1 {
                    lemma_before_transitive(views, before[i] as int, last, n as int);
                }
            }
        }
        order.insert(at, n);
        proof {
            assert forall|i: int, j: int| 0 <= i < j < n + 1 implies item_before(
                views,
                #[trigger] order@[i] as int,
                #[trigger] order@[j] as int,
            ) && order@[i] != order@[j] by {
                let from_i = if i < at {
                    i
                } else {
                    i - 1
                };
                let from_j = if j < at {
                    j
                } else {
                    j - 1
                };
                if i == at {
                    assert(order@[j] == before[from_j]);
                } else if j == at {
                    assert(order@[i] == before[from_i]);
                } else {
                    assert(order@[i] == before[from_i]);
                    assert(order@[j] == before[from_j]);
                }
            }
            assert forall|i: int| 0 <= i < n + 1 implies 0 <= #[trigger] order@[i] < n + 1 by {
                if i < at {
                    assert(order@[i] == before[i]);
                } else if i > at {
                    assert(order@[i] == before[i - 1]);
                }
            }
        }
        n += 1;
    }
    proof {
        assert(is_stable_order(views, order@));
        law_stable_order_is_unique(views, order@, order_of(views));
    }
    order
}

/// The items, taken as `order` lists them.
pub open spec fn arranged<T>(items: Seq<T>, order: Seq<usize>) -> Seq<T> {
    Seq::new(order.len(), |i: int| items[order[i] as int])
}

/// Takes the items as `order` lists them.
pub fn arrange<T>(items: Vec<T>, order: &Vec<usize>) -> (r: Vec<T>)
    requires
        is_arrangement(order@, items@.len()),
    ensures
        r@ == arranged(items@, order@),
{
    let ghost all = items@;
    let mut items = items;
    let mut slots: Vec<Option<T>> = Vec::new();
    while items.len() > 0
        invariant
            items@.len() + slots@.len() == all.len(),
            items@ == all.take(items@.len() as int),
            forall|i: int|
                0 <= i < slots@.len() ==> #[trigger] slots@[i] == Some(all[all.len() - 1 - i]),
        decreases items@.len(),
    {
        let item = items.pop();
        slots.push(item);
        assert(items@ =~= all.take(items@.len() as int));
    }
    let n: usize = slots.len();
    let mut out: Vec<T> = Vec::new();
    let mut i: usize = 0;
    while i < order.len()
        invariant
            i <= order@.len(),
            n == all.len(),
            slots@.len() == n,
            is_arrangement(order@, n as nat),
            out@ == arranged(all, order@).take(i as int),
            forall|j: int|
                i <= j < n ==> #[trigger] slots@[all.len() - 1 - order@[j]] == Some(
                    all[order@[j] as int],
                ),
        decreases order@.len() - i,
    {
        let at: usize = n - 1 - order[i];
        let item = slots[at].take();
        match item {
            Some(item) => out.push(item),
            None => {
                assert(slots@[all.len() - 1 - order@[i as int]] == Some(
                    all[order@[i as int] as int],
                ));
            },
        }
        assert(out@ =~= arranged(all, order@).take(i + 1));
        i += 1;
    }
    assert(out@ =~= arranged(all, order@));
    out
}

/// Sorts the items by key, those of equal key as they stood.
pub fn sort_by_keys<T>(items: Vec<T>, keys: &Vec<SortKey>) -> (r: Vec<T>)
    requires
        items@.len() == keys@.len(),
    ensures
        r@ == sorted(items@, key_views(keys@)),
        is_stable_order(key_views(keys@), order_of(key_views(keys@))),
{
    let order = stable_order(keys);
    arrange(items, &order)
}

/// Texts are in the order of the first character in which they differ, and a text comes before
/// every longer one that begins with it.
pub proof fn law_texts_are_in_alphabetical_order(
    common: Seq<char>,
    x: char,
    a: Seq<char>,
    y: char,
    b: Seq<char>,
)
    requires
        x < y,
    ensures
        precedes(common + seq![x] + a, common + seq![y] + b),
        !precedes(common + seq![y] + b, common + seq![x] + a),
        precedes(common, common + seq![x] + a),
        !precedes(common + seq![x] + a, common),
        !precedes(common, common),
    decreases common.len(),
{
    let left = common + seq![x] + a;
    let right = common + seq![y] + b;
    if common.len() > 0 {
        let rest = common.drop_first();
        law_texts_are_in_alphabetical_order(rest, x, a, y, b);
        assert(left.drop_first() =~= rest + seq![x] + a);
        assert(right.drop_first() =~= rest + seq![y] + b);
        assert(left[0] == common[0] && right[0] == common[0]);
    } else {
        assert(left[0] == x && right[0] == y);
    }
}

/// Items that are sorted stand by rank, those of one rank by text, and those of one key as they
/// stood before.
pub proof fn law_lesser_keys_come_first(keys: Seq<KeyView>, i: int, j: int)
    requires
        keys.len() <= usize::MAX,
        0 <= i < j < keys.len(),
    ensures
        ({
            let order = order_of(keys);
            let a = keys[order[i] as int];
            let b = keys[order[j] as int];
            &&& is_arrangement(order, keys.len())
            &&& a.rank <= b.rank
            &&& a.rank == b.rank ==> !precedes(b.text, a.text)
            &&& a == b ==> order[i] < order[j]
        }),
        forall|items: Seq<int>|
            #![trigger sorted(items, keys)]
            items.len() == keys.len() ==> sorted(items, keys)[i] == items[order_of(
                keys,
            )[i] as int],
{
    lemma_order_exists(keys);
    let order = order_of(keys);
    assert(item_before(keys, order[i] as int, order[j] as int));
    let a = keys[order[i] as int];
    let b = keys[order[j] as int];
    lemma_precedes_irreflexive(a.text);
    if precedes(a.text, b.text) {
        lemma_precedes_asymmetric(a.text, b.text);
    }
}

/// Contracts speak of whole values: every part of a value is in its view, in its place, and nothing
/// else is.
pub proof fn law_views_of_order_are_whole(
    key: SortKey,
    keys: Seq<SortKey>,
)
    ensures
        key@.rank == key.rank as int,
        key@.text == key.text@,
        key_views(keys).len() == keys.len(),
        forall|i: int|
            0 <= i < keys.len() ==> #[trigger] key_views(keys)[i] == keys[i]@,
{
}

} // verus!
