use vstd::prelude::*;
use vstd::multiset::Multiset;
use crate::todo_item::TodoItem;

verus! {

broadcast use vstd::seq_lib::group_to_multiset_ensures;

/// A direction for one of the user-visible sort modes.
#[derive(Clone, Copy, Debug, PartialEq, Eq, Structural)]
pub enum SortingOrder {
    Ascending,
    Descending,
}

/// The user-visible sort modes: by the time of last update, or by the
/// completion flag.
#[derive(Clone, Copy, Debug, PartialEq, Eq, Structural)]
pub enum AppSorting {
    ByDate(SortingOrder),
    ByCompletion(SortingOrder),
}

/// How the displayed list may be ordered: one of the user-visible modes, or
/// by the position each task holds in creation order.
#[derive(Clone, Copy, Debug, PartialEq, Eq, Structural)]
pub enum ListOrder {
    Date(SortingOrder),
    Completion(SortingOrder),
    Creation,
}

/// An element of the displayed list: a task paired with its position in the
/// authoritative, creation-ordered task sequence.
pub type Entry = (usize, TodoItem);

/// The list order that realises a user-visible sort mode.
pub open spec fn order_of(sorting: AppSorting) -> ListOrder {
    match sorting {
        AppSorting::ByDate(direction) => ListOrder::Date(direction),
        AppSorting::ByCompletion(direction) => ListOrder::Completion(direction),
    }
}

/// The same sort mode with its direction flipped.
pub open spec fn opposite(sorting: AppSorting) -> AppSorting {
    match sorting {
        AppSorting::ByDate(SortingOrder::Ascending) => AppSorting::ByDate(
            SortingOrder::Descending,
        ),
        AppSorting::ByDate(SortingOrder::Descending) => AppSorting::ByDate(
            SortingOrder::Ascending,
        ),
        AppSorting::ByCompletion(SortingOrder::Ascending) => AppSorting::ByCompletion(
            SortingOrder::Descending,
        ),
        AppSorting::ByCompletion(SortingOrder::Descending) => AppSorting::ByCompletion(
            SortingOrder::Ascending,
        ),
    }
}

/// `a` may stand before `b` under order `o`. Dates compare by `updated_date`
/// with ascending meaning least recently updated first; completion treats
/// `false` as ordering before `true`, so descending puts completed tasks
/// first; `Creation` compares the remembered creation positions.
pub open spec fn entry_le(o: ListOrder, a: Entry, b: Entry) -> bool {
    match o {
        ListOrder::Date(SortingOrder::Ascending) => a.1.updated_date <= b.1.updated_date,
        ListOrder::Date(SortingOrder::Descending) => b.1.updated_date <= a.1.updated_date,
        ListOrder::Completion(SortingOrder::Ascending) => a.1.completed ==> b.1.completed,
        ListOrder::Completion(SortingOrder::Descending) => b.1.completed ==> a.1.completed,
        ListOrder::Creation => a.0 <= b.0,
    }
}

/// Every two entries are comparable, in both directions if they tie.
pub proof fn lemma_entry_le_total(o: ListOrder)
    ensures
        forall|a: Entry, b: Entry| #[trigger] entry_le(o, a, b) || #[trigger] entry_le(o, b, a),
{
}

/// `entry_le` is transitive in each order.
pub proof fn lemma_entry_le_trans(o: ListOrder)
    ensures
        forall|a: Entry, b: Entry, c: Entry|
            #[trigger] entry_le(o, a, b) && #[trigger] entry_le(o, b, c) ==> entry_le(o, a, c),
{
}

/// `s` is weakly sorted under `o`.
pub open spec fn entries_sorted(o: ListOrder, s: Seq<Entry>) -> bool {
    forall|i: int, j: int| 0 <= i <= j < s.len() ==> entry_le(o, #[trigger] s[i], #[trigger] s[j])
}

/// No two distinct positions of `s` hold entries that tie under `o` (both
/// may stand before the other). Under `ListOrder::Creation` this says the
/// remembered creation positions are pairwise distinct.
pub open spec fn no_ties(o: ListOrder, s: Seq<Entry>) -> bool {
    forall|i: int, j: int|
        0 <= i < j < s.len() ==> !(entry_le(o, #[trigger] s[i], #[trigger] s[j]) && entry_le(
            o,
            s[j],
            s[i],
        ))
}

/// `x` inserted into the already sorted `s`, after every element that may
/// stand before it; placing late arrivals after their ties is what makes
/// the sort stable.
pub open spec fn insert_sorted(o: ListOrder, x: Entry, s: Seq<Entry>) -> Seq<Entry>
    decreases s.len(),
{
    if s.len() == 0 {
        seq![x]
    } else if entry_le(o, s[0], x) {
        seq![s[0]] + insert_sorted(o, x, s.drop_first())
    } else {
        seq![x] + s
    }
}

/// The stable sort of `s` under `o`: each element in turn inserted into the
/// sorted prefix of everything before it.
pub open spec fn sort_entries(o: ListOrder, s: Seq<Entry>) -> Seq<Entry>
    decreases s.len(),
{
    if s.len() == 0 {
        s
    } else {
        insert_sorted(o, s.last(), sort_entries(o, s.drop_last()))
    }
}

/// Inserting into a sorted sequence keeps it sorted, grows it by one, and
/// adds exactly the new element to its contents.
pub proof fn lemma_insert_sorted(o: ListOrder, x: Entry, s: Seq<Entry>)
    requires
        entries_sorted(o, s),
    ensures
        entries_sorted(o, insert_sorted(o, x, s)),
        insert_sorted(o, x, s).to_multiset() == s.to_multiset().insert(x),
        insert_sorted(o, x, s).len() == s.len() + 1,
    decreases s.len(),
{
    lemma_entry_le_total(o);
    lemma_entry_le_trans(o);
    let r = insert_sorted(o, x, s);
    if s.len() == 0 {
        assert(seq![x] =~= Seq::<Entry>::empty().push(x));
        assert(r.to_multiset() =~= s.to_multiset().insert(x));
    } else if entry_le(o, s[0], x) {
        let tail = s.drop_first();
        assert(entries_sorted(o, tail));
        lemma_insert_sorted(o, x, tail);
        let rest = insert_sorted(o, x, tail);
        assert(r =~= seq![s[0]] + rest);
        assert forall|j: int| 0 <= j < rest.len() implies entry_le(o, s[0], rest[j]) by {
            assert(rest.contains(rest[j]));
            assert(rest.to_multiset().count(rest[j]) > 0);
            if rest[j] == x {
            } else {
                assert(tail.to_multiset().count(rest[j]) > 0);
                assert(tail.contains(rest[j]));
                let k = choose|k: int| 0 <= k < tail.len() && tail[k] == rest[j];
                assert(s[k + 1] == tail[k]);
                assert(entry_le(o, s[0], s[k + 1]));
            }
        }
        assert forall|i: int, j: int| 0 <= i <= j < r.len() implies entry_le(o, r[i], r[j]) by {
            if i == 0 {
                if j > 0 {
                    assert(r[j] == rest[j - 1]);
                }
            } else {
                assert(r[i] == rest[i - 1] && r[j] == rest[j - 1]);
            }
        }
        vstd::seq_lib::lemma_multiset_commutative(seq![s[0]], rest);
        assert(seq![s[0]].to_multiset() =~= Multiset::<Entry>::empty().insert(s[0]));
        assert(s =~= seq![s[0]] + tail);
        vstd::seq_lib::lemma_multiset_commutative(seq![s[0]], tail);
        assert(r.to_multiset() =~= s.to_multiset().insert(x));
    } else {
        assert(r =~= seq![x] + s);
        assert(entry_le(o, x, s[0]));
        assert forall|i: int, j: int| 0 <= i <= j < r.len() implies entry_le(o, r[i], r[j]) by {
            if i == 0 {
                if j > 0 {
                    assert(r[j] == s[j - 1]);
                    assert(entry_le(o, s[0], s[j - 1]));
                }
            } else {
                assert(r[i] == s[i - 1] && r[j] == s[j - 1]);
            }
        }
        vstd::seq_lib::lemma_multiset_commutative(seq![x], s);
        assert(seq![x].to_multiset() =~= Multiset::<Entry>::empty().insert(x));
        assert(r.to_multiset() =~= s.to_multiset().insert(x));
    }
}

/// Two positions holding the same value force a count of at least two.
proof fn lemma_count_at_least_two(s: Seq<Entry>, i: int, j: int)
    requires
        0 <= i < j < s.len(),
        s[i] == s[j],
    ensures
        s.to_multiset().count(s[i]) >= 2,
{
    let shorter = s.remove(j);
    assert(shorter.to_multiset() == s.to_multiset().remove(s[j]));
    assert(shorter[i] == s[i]);
    assert(shorter.contains(s[i]));
    assert(shorter.to_multiset().count(s[i]) > 0);
}

/// A count of at least two yields two distinct positions with that value.
proof fn lemma_two_positions(s: Seq<Entry>, v: Entry)
    requires
        s.to_multiset().count(v) >= 2,
    ensures
        exists|i: int, j: int| 0 <= i < j < s.len() && s[i] == v && s[j] == v,
{
    assert(s.to_multiset().count(v) > 0);
    assert(s.contains(v));
    let i = choose|i: int| 0 <= i < s.len() && s[i] == v;
    let shorter = s.remove(i);
    assert(shorter.to_multiset() == s.to_multiset().remove(s[i]));
    assert(shorter.to_multiset().count(v) >= 1);
    assert(shorter.contains(v));
    let k = choose|k: int| 0 <= k < shorter.len() && shorter[k] == v;
    if k < i {
        assert(shorter[k] == s[k]);
        assert(s[k] == v && s[i] == v && k < i);
    } else {
        assert(shorter[k] == s[k + 1]);
        assert(s[i] == v && s[k + 1] == v && i < k + 1);
    }
}

/// Freedom from ties survives any reordering of the contents.
pub proof fn lemma_no_ties_permutation(o: ListOrder, s: Seq<Entry>, t: Seq<Entry>)
    requires
        s.to_multiset() == t.to_multiset(),
        no_ties(o, s),
    ensures
        no_ties(o, t),
{
    assert forall|i: int, j: int| 0 <= i < j < t.len() implies !(entry_le(o, t[i], t[j])
        && entry_le(o, t[j], t[i])) by {
        if entry_le(o, t[i], t[j]) && entry_le(o, t[j], t[i]) {
            if t[i] == t[j] {
                lemma_count_at_least_two(t, i, j);
                lemma_two_positions(s, t[i]);
            } else {
                assert(t.contains(t[i]) && t.contains(t[j]));
                assert(s.to_multiset().count(t[i]) > 0 && s.to_multiset().count(t[j]) > 0);
                assert(s.contains(t[i]) && s.contains(t[j]));
                let a = choose|a: int| 0 <= a < s.len() && s[a] == t[i];
                let b = choose|b: int| 0 <= b < s.len() && s[b] == t[j];
                assert(a != b);
            }
        }
    }
}

/// In a tie-free sequence, two members that tie are the same value.
proof fn lemma_no_ties_antisymmetric(o: ListOrder, s: Seq<Entry>, a: Entry, b: Entry)
    requires
        no_ties(o, s),
        s.to_multiset().contains(a),
        s.to_multiset().contains(b),
        entry_le(o, a, b),
        entry_le(o, b, a),
    ensures
        a == b,
{
    if a != b {
        assert(s.contains(a) && s.contains(b));
        let i = choose|i: int| 0 <= i < s.len() && s[i] == a;
        let j = choose|j: int| 0 <= j < s.len() && s[j] == b;
        assert(i != j);
    }
}

/// Two sorted, tie-free sequences with the same contents are the same
/// sequence.
proof fn lemma_sorted_unique(o: ListOrder, s1: Seq<Entry>, s2: Seq<Entry>)
    requires
        entries_sorted(o, s1),
        entries_sorted(o, s2),
        no_ties(o, s1),
        s1.to_multiset() == s2.to_multiset(),
    ensures
        s1 == s2,
    decreases s1.len(),
{
    assert(s1.len() == s1.to_multiset().len());
    assert(s2.len() == s2.to_multiset().len());
    if s1.len() == 0 {
        assert(s1 =~= s2);
    } else {
        assert(s1.contains(s1[0]));
        assert(s1.to_multiset().count(s1[0]) > 0);
        assert(s2.to_multiset().count(s1[0]) > 0);
        assert(s2.contains(s1[0]));
        let j = choose|j: int| 0 <= j < s2.len() && s2[j] == s1[0];
        assert(s2.contains(s2[0]));
        assert(s1.to_multiset().count(s2[0]) > 0);
        assert(s1.contains(s2[0]));
        let i = choose|i: int| 0 <= i < s1.len() && s1[i] == s2[0];
        assert(entry_le(o, s2[0], s2[j]));
        assert(entry_le(o, s1[0], s1[i]));
        lemma_no_ties_antisymmetric(o, s1, s1[0], s2[0]);
        let t1 = s1.remove(0);
        let t2 = s2.remove(0);
        assert(t1.to_multiset() == s1.to_multiset().remove(s1[0]));
        assert(t2.to_multiset() == s2.to_multiset().remove(s2[0]));
        assert(entries_sorted(o, t1)) by {
            assert(forall|i: int| 0 <= i < t1.len() ==> t1[i] == s1[i + 1]);
        }
        assert(entries_sorted(o, t2)) by {
            assert(forall|i: int| 0 <= i < t2.len() ==> t2[i] == s2[i + 1]);
        }
        assert(no_ties(o, t1)) by {
            assert(forall|i: int| 0 <= i < t1.len() ==> t1[i] == s1[i + 1]);
        }
        lemma_sorted_unique(o, t1, t2);
        assert(s1 =~= s2) by {
            assert(forall|k: int| 1 <= k < s1.len() ==> s1[k] == t1[k - 1] && s2[k] == t2[k - 1]);
        }
    }
}

/// Sorting two reorderings of the same contents gives the same sequence,
/// provided the contents are free of ties under the order used.
pub proof fn lemma_sort_of_permutation(o: ListOrder, s1: Seq<Entry>, s2: Seq<Entry>)
    requires
        s1.to_multiset() == s2.to_multiset(),
        no_ties(o, s1),
    ensures
        sort_entries(o, s1) == sort_entries(o, s2),
{
    lemma_sort_entries(o, s1);
    lemma_sort_entries(o, s2);
    lemma_no_ties_permutation(o, s1, sort_entries(o, s1));
    lemma_sorted_unique(o, sort_entries(o, s1), sort_entries(o, s2));
}

/// Sorting a sequence that is already sorted and tie-free leaves it as it
/// stands.
pub proof fn lemma_sort_of_sorted(o: ListOrder, s: Seq<Entry>)
    requires
        entries_sorted(o, s),
        no_ties(o, s),
    ensures
        sort_entries(o, s) == s,
{
    lemma_sort_entries(o, s);
    lemma_no_ties_permutation(o, s, sort_entries(o, s));
    lemma_sorted_unique(o, sort_entries(o, s), s);
}

/// The sort is sorted, keeps the length, and keeps the contents.
pub proof fn lemma_sort_entries(o: ListOrder, s: Seq<Entry>)
    ensures
        entries_sorted(o, sort_entries(o, s)),
        sort_entries(o, s).to_multiset() == s.to_multiset(),
        sort_entries(o, s).len() == s.len(),
    decreases s.len(),
{
    if s.len() == 0 {
    } else {
        let head = s.drop_last();
        lemma_sort_entries(o, head);
        lemma_insert_sorted(o, s.last(), sort_entries(o, head));
        assert(s =~= head.push(s.last()));
        assert(head.push(s.last()).to_multiset() =~= head.to_multiset().insert(s.last()));
    }
}

/// Inserting lands exactly at the first position whose element may not
/// stand before the inserted one.
proof fn lemma_insert_sorted_at(o: ListOrder, x: Entry, s: Seq<Entry>, j: int)
    requires
        entries_sorted(o, s),
        0 <= j <= s.len(),
        forall|k: int| 0 <= k < j ==> entry_le(o, #[trigger] s[k], x),
        j < s.len() ==> !entry_le(o, s[j], x),
    ensures
        insert_sorted(o, x, s) == s.insert(j, x),
    decreases s.len(),
{
    if s.len() == 0 {
        assert(insert_sorted(o, x, s) =~= s.insert(0, x));
    } else if j == 0 {
        assert(!entry_le(o, s[0], x));
        assert(insert_sorted(o, x, s) =~= s.insert(0, x));
    } else {
        let tail = s.drop_first();
        assert(entries_sorted(o, tail)) by {
            assert(forall|k: int| 0 <= k < tail.len() ==> tail[k] == s[k + 1]);
        }
        assert(forall|k: int| 0 <= k < j - 1 ==> #[trigger] tail[k] == s[k + 1]);
        assert(j - 1 < tail.len() ==> !entry_le(o, tail[j - 1], x));
        lemma_insert_sorted_at(o, x, tail, j - 1);
        assert(entry_le(o, s[0], x));
        assert(insert_sorted(o, x, s) == seq![s[0]] + tail.insert(j - 1, x));
        assert(seq![s[0]] + tail.insert(j - 1, x) =~= s.insert(j, x));
    }
}

/// Each position of a reordering holds some member of the original.
pub proof fn lemma_permutation_position(s: Seq<Entry>, t: Seq<Entry>, j: int)
    requires
        s.to_multiset() == t.to_multiset(),
        0 <= j < t.len(),
    ensures
        s.contains(t[j]),
{
    assert(t.contains(t[j]));
    assert(s.to_multiset().count(t[j]) > 0);
}

/// Sorting a sorted, tie-free sequence by the converse order reverses it
/// exactly.
proof fn lemma_sort_reverse(o1: ListOrder, o2: ListOrder, s: Seq<Entry>)
    requires
        forall|a: Entry, b: Entry| #[trigger] entry_le(o2, a, b) == entry_le(o1, b, a),
        entries_sorted(o1, s),
        no_ties(o1, s),
    ensures
        sort_entries(o2, s) == s.reverse(),
    decreases s.len(),
{
    if s.len() == 0 {
        assert(s.reverse() =~= s);
    } else {
        let t = s.drop_last();
        let x = s.last();
        assert(forall|k: int| 0 <= k < t.len() ==> t[k] == s[k]);
        assert(entries_sorted(o1, t));
        assert(no_ties(o1, t));
        lemma_sort_reverse(o1, o2, t);
        assert(sort_entries(o2, s) == insert_sorted(o2, x, t.reverse()));
        if t.len() == 0 {
            assert(insert_sorted(o2, x, t.reverse()) =~= seq![x]);
            assert(s.reverse() =~= seq![x]);
        } else {
            let r = t.reverse();
            assert(r[0] == t[t.len() - 1]);
            assert(r[0] == s[s.len() - 2]);
            assert(entry_le(o1, s[s.len() - 2], x));
            assert(!(entry_le(o1, s[s.len() - 2], x) && entry_le(o1, x, s[s.len() - 2])));
            assert(!entry_le(o2, r[0], x));
            assert(insert_sorted(o2, x, r) == seq![x] + r);
            assert(seq![x] + r =~= s.reverse());
        }
    }
}

/// Sorting by a mode and then by the same mode with the direction flipped
/// yields the exact reverse order, provided no two entries tie under the
/// mode. (With ties the stable sort keeps tied runs in their old order, so
/// the reversal holds only up to tie-breaking.)
pub proof fn lemma_sort_round_trip(sorting: AppSorting, s: Seq<Entry>)
    requires
        no_ties(order_of(sorting), s),
    ensures
        sort_entries(order_of(opposite(sorting)), sort_entries(order_of(sorting), s))
            == sort_entries(order_of(sorting), s).reverse(),
{
    let o1 = order_of(sorting);
    let o2 = order_of(opposite(sorting));
    assert(forall|a: Entry, b: Entry| #[trigger] entry_le(o2, a, b) == entry_le(o1, b, a));
    lemma_sort_entries(o1, s);
    lemma_no_ties_permutation(o1, s, sort_entries(o1, s));
    lemma_sort_reverse(o1, o2, sort_entries(o1, s));
}

/// The fixed rotation the sort toggle cycles through: date ascending, date
/// descending, completion ascending, completion descending, and around
/// again.
pub open spec fn next_sorting(sorting: AppSorting) -> AppSorting {
    match sorting {
        AppSorting::ByDate(SortingOrder::Ascending) => AppSorting::ByDate(
            SortingOrder::Descending,
        ),
        AppSorting::ByDate(SortingOrder::Descending) => AppSorting::ByCompletion(
            SortingOrder::Ascending,
        ),
        AppSorting::ByCompletion(SortingOrder::Ascending) => AppSorting::ByCompletion(
            SortingOrder::Descending,
        ),
        AppSorting::ByCompletion(SortingOrder::Descending) => AppSorting::ByDate(
            SortingOrder::Ascending,
        ),
    }
}

/// Each task of `s` paired with its position: the entries of a freshly
/// indexed, creation-ordered task sequence.
pub open spec fn with_indices(s: Seq<TodoItem>) -> Seq<Entry> {
    Seq::new(s.len(), |i: int| (i as usize, s[i]))
}

/// A freshly indexed task sequence, sorted by any order, still carries
/// pairwise distinct creation positions below its length, and re-sorting
/// it by creation recovers the indexed sequence — and with it the tasks.
pub proof fn lemma_rebuild(o: ListOrder, ts: Seq<TodoItem>)
    requires
        ts.len() <= usize::MAX,
    ensures
        sort_entries(o, with_indices(ts)).len() == ts.len(),
        no_ties(ListOrder::Creation, sort_entries(o, with_indices(ts))),
        forall|j: int|
            0 <= j < ts.len() ==> (#[trigger] sort_entries(o, with_indices(ts))[j]).0 < ts.len(),
        sort_entries(ListOrder::Creation, sort_entries(o, with_indices(ts))) == with_indices(ts),
        with_indices(ts).map_values(|e: Entry| e.1) == ts,
{
    let wi = with_indices(ts);
    assert(no_ties(ListOrder::Creation, wi));
    assert(entries_sorted(ListOrder::Creation, wi));
    lemma_sort_entries(o, wi);
    let sorted = sort_entries(o, wi);
    lemma_no_ties_permutation(ListOrder::Creation, wi, sorted);
    lemma_sort_of_permutation(ListOrder::Creation, wi, sorted);
    lemma_sort_of_sorted(ListOrder::Creation, wi);
    assert forall|j: int| 0 <= j < ts.len() implies (#[trigger] sorted[j]).0 < ts.len() by {
        lemma_permutation_position(wi, sorted, j);
        let i = choose|i: int| 0 <= i < wi.len() && wi[i] == sorted[j];
        assert(wi[i].0 == i as usize);
    }
    assert(wi.map_values(|e: Entry| e.1) =~= ts);
}

/// The list order that realises a user-visible sort mode, computed
/// executably.
pub fn list_order_of(sorting: AppSorting) -> (o: ListOrder)
    ensures
        o == order_of(sorting),
{
    match sorting {
        AppSorting::ByDate(direction) => ListOrder::Date(direction),
        AppSorting::ByCompletion(direction) => ListOrder::Completion(direction),
    }
}

/// Pairs each task with its position, cloning the tasks into a fresh entry
/// vector.
pub fn index_tasks(tasks: &Vec<TodoItem>) -> (entries: Vec<Entry>)
    ensures
        entries@ == with_indices(tasks@),
{
    let mut entries: Vec<Entry> = Vec::new();
    let mut j: usize = 0;
    while j < tasks.len()
        invariant
            j <= tasks@.len(),
            entries@ == with_indices(tasks@).subrange(0, j as int),
        decreases tasks@.len() - j,
    {
        entries.push((j, tasks[j].clone()));
        proof {
            assert(entries@ =~= with_indices(tasks@).subrange(0, j as int + 1));
        }
        j += 1;
    }
    proof {
        assert(with_indices(tasks@).subrange(0, tasks@.len() as int) =~= with_indices(tasks@));
    }
    entries
}

/// `a` may stand before `b` under `o`, decided executably.
fn entry_le_exec(o: ListOrder, a: &Entry, b: &Entry) -> (r: bool)
    ensures
        r == entry_le(o, *a, *b),
{
    match o {
        ListOrder::Date(SortingOrder::Ascending) => a.1.updated_date <= b.1.updated_date,
        ListOrder::Date(SortingOrder::Descending) => b.1.updated_date <= a.1.updated_date,
        ListOrder::Completion(SortingOrder::Ascending) => !a.1.completed || b.1.completed,
        ListOrder::Completion(SortingOrder::Descending) => !b.1.completed || a.1.completed,
        ListOrder::Creation => a.0 <= b.0,
    }
}

/// A one-element sequence is its own sort.
proof fn lemma_sort_singleton(o: ListOrder, s: Seq<Entry>)
    requires
        s.len() == 1,
    ensures
        sort_entries(o, s) == s,
{
    assert(s.drop_last() =~= Seq::<Entry>::empty());
    assert(sort_entries(o, s.drop_last()) == s.drop_last());
    assert(insert_sorted(o, s.last(), s.drop_last()) == seq![s.last()]);
    assert(seq![s.last()] =~= s);
}

/// Sorts the entries in place: an insertion sort, so a stable one, whose
/// result is exactly `sort_entries` of what the vector held.
pub fn sort_entries_vec(entries: &mut Vec<Entry>, o: ListOrder)
    ensures
        final(entries)@ == sort_entries(o, old(entries)@),
{
    let ghost orig = entries@;
    if entries.len() <= 1 {
        proof {
            if orig.len() == 1 {
                lemma_sort_singleton(o, orig);
            }
        }
        return;
    }
    proof {
        assert(orig.subrange(0, 1).len() == 1);
        lemma_sort_singleton(o, orig.subrange(0, 1));
        assert(entries@.subrange(0, 1) =~= orig.subrange(0, 1));
    }
    let mut i: usize = 1;
    while i < entries.len()
        invariant
            1 <= i <= orig.len(),
            entries@.len() == orig.len(),
            entries@.subrange(0, i as int) == sort_entries(o, orig.subrange(0, i as int)),
            entries@.subrange(i as int, orig.len() as int) == orig.subrange(
                i as int,
                orig.len() as int,
            ),
        decreases orig.len() - i,
    {
        let ghost before = entries@;
        let ghost prefix = before.subrange(0, i as int);
        proof {
            lemma_sort_entries(o, orig.subrange(0, i as int));
            assert(before[i as int] == before.subrange(i as int, orig.len() as int)[0]);
            assert(before[i as int] == orig[i as int]);
        }
        let x = entries.remove(i);
        assert(entries@ == before.remove(i as int));
        let mut j: usize = i;
        while j > 0 && !entry_le_exec(o, &entries[j - 1], &x)
            invariant
                j <= i,
                i < orig.len(),
                before.len() == orig.len(),
                entries@ == before.remove(i as int),
                entries@.len() == orig.len() - 1,
                x == before[i as int],
                forall|k: int| j <= k < i ==> !entry_le(o, #[trigger] entries@[k], x),
            decreases j,
        {
            proof {
                assert(entries@[j - 1] == before[j - 1]);
            }
            j -= 1;
        }
        proof {
            lemma_entry_le_total(o);
            lemma_entry_le_trans(o);
            assert(forall|k: int| 0 <= k < i ==> #[trigger] entries@[k] == before[k]);
            assert(entries@.subrange(0, i as int) =~= prefix);
            if j > 0 {
                assert(entry_le(o, prefix[j - 1], x));
                assert forall|k: int| 0 <= k < j implies entry_le(o, #[trigger] prefix[k], x) by {
                    assert(entry_le(o, prefix[k], prefix[j - 1]));
                }
            }
            assert(j < i ==> !entry_le(o, prefix[j as int], x));
            lemma_insert_sorted_at(o, x, prefix, j as int);
        }
        entries.insert(j, x);
        proof {
            let now = entries@;
            let removed = before.remove(i as int);
            assert(now == removed.insert(j as int, x));
            let prefix1 = orig.subrange(0, i as int + 1);
            assert(prefix1.drop_last() =~= orig.subrange(0, i as int));
            assert(prefix1.last() == orig[i as int]);
            assert(sort_entries(o, prefix1) == insert_sorted(
                o,
                x,
                sort_entries(o, orig.subrange(0, i as int)),
            ));
            assert forall|k: int| 0 <= k < i as int + 1 implies now[k] == prefix.insert(
                j as int,
                x,
            )[k] by {
                if k < j {
                    assert(now[k] == removed[k]);
                    assert(removed[k] == before[k]);
                } else if k > j {
                    assert(now[k] == removed[k - 1]);
                    assert(removed[k - 1] == before[k - 1]);
                }
            }
            assert(now.subrange(0, i as int + 1) =~= prefix.insert(j as int, x));
            assert(now.subrange(0, i as int + 1) == sort_entries(o, prefix1));
            assert forall|k: int| i as int + 1 <= k < orig.len() implies now[k] == orig[k] by {
                assert(now[k] == removed[k - 1]);
                assert(removed[k - 1] == before[k]);
                assert(before.subrange(i as int, orig.len() as int)[k - i] == before[k]);
                assert(orig.subrange(i as int, orig.len() as int)[k - i] == orig[k]);
            }
            assert(now.subrange(i as int + 1, orig.len() as int) =~= orig.subrange(
                i as int + 1,
                orig.len() as int,
            ));
        }
        i += 1;
    }
    proof {
        assert(orig.subrange(0, orig.len() as int) =~= orig);
        assert(entries@.subrange(0, orig.len() as int) =~= entries@);
    }
}

} // verus!
