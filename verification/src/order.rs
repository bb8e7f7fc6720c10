//! Ordering entries by size, the largest first.
use vstd::prelude::*;

use crate::model::Entry;

verus! {

/// Every entry is at least as large as those behind it.
pub open spec fn sorted_by_size(entries: Seq<Entry>) -> bool {
    forall|i: int, j: int|
        0 <= i <= j < entries.len() ==> entries[i].size_in_bytes >= entries[j].size_in_bytes
}

/// The entries of exactly the given size, in the order in which they stand.
pub open spec fn of_size(entries: Seq<Entry>, size: u64) -> Seq<Entry>
    decreases entries.len(),
{
    if entries.len() == 0 {
        Seq::empty()
    } else if entries.last().size_in_bytes == size {
        of_size(entries.drop_last(), size).push(entries.last())
    } else {
        of_size(entries.drop_last(), size)
    }
}

/// `sorted` holds the entries of `entries`, the largest first, and entries of
/// one size in the order in which they stood.
pub open spec fn is_stable_sort(entries: Seq<Entry>, sorted: Seq<Entry>) -> bool {
    &&& sorted_by_size(sorted)
    &&& sorted.len() == entries.len()
    &&& forall|size: u64| #[trigger] of_size(sorted, size) == of_size(entries, size)
}

/// The sum of the entries' sizes.
pub open spec fn size_sum(entries: Seq<Entry>) -> nat
    decreases entries.len(),
{
    if entries.len() == 0 {
        0
    } else {
        size_sum(entries.drop_last()) + entries.last().size_in_bytes as nat
    }
}

/// Two runs that are sorted each, combined from their small ends.
spec fn merged(a: Seq<Entry>, b: Seq<Entry>) -> Seq<Entry>
    decreases a.len() + b.len(),
{
    if a.len() == 0 {
        b
    } else if b.len() == 0 {
        a
    } else if a.last().size_in_bytes < b.last().size_in_bytes {
        merged(a.drop_last(), b).push(a.last())
    } else {
        merged(a, b.drop_last()).push(b.last())
    }
}

proof fn lemma_of_size_concat(a: Seq<Entry>, b: Seq<Entry>, size: u64)
    ensures
        of_size(a + b, size) == of_size(a, size) + of_size(b, size),
    decreases b.len(),
{
    if b.len() == 0 {
        assert(a + b =~= a);
        assert(of_size(a, size) + of_size(b, size) =~= of_size(a, size));
    } else {
        assert((a + b).drop_last() =~= a + b.drop_last());
        lemma_of_size_concat(a, b.drop_last(), size);
        assert(of_size(a + b, size) =~= of_size(a, size) + of_size(b, size));
    }
}

/// No entry of a run that is sorted has a size below that of the last one.
proof fn lemma_of_size_below(a: Seq<Entry>, size: u64)
    requires
        forall|i: int| 0 <= i < a.len() ==> (#[trigger] a[i]).size_in_bytes > size,
    ensures
        of_size(a, size) == Seq::<Entry>::empty(),
    decreases a.len(),
{
    if a.len() > 0 {
        lemma_of_size_below(a.drop_last(), size);
    }
}

/// No entry is smaller than `size`.
spec fn all_at_least(entries: Seq<Entry>, size: u64) -> bool {
    forall|i: int| 0 <= i < entries.len() ==> (#[trigger] entries[i]).size_in_bytes >= size
}

proof fn lemma_merged(a: Seq<Entry>, b: Seq<Entry>)
    requires
        sorted_by_size(a),
        sorted_by_size(b),
    ensures
        merged(a, b).len() == a.len() + b.len(),
        sorted_by_size(merged(a, b)),
        forall|size: u64|
            all_at_least(a, size) && all_at_least(b, size) ==> #[trigger] all_at_least(
                merged(a, b),
                size,
            ),
    decreases a.len() + b.len(),
{
    if a.len() > 0 && b.len() > 0 {
        let m = merged(a, b);
        let low = m.last().size_in_bytes;
        let (x, y) = if a.last().size_in_bytes < b.last().size_in_bytes {
            (a.drop_last(), b)
        } else {
            (a, b.drop_last())
        };
        lemma_merged(x, y);
        assert(m.drop_last() =~= merged(x, y));
        assert(all_at_least(x, low) && all_at_least(y, low));
        assert(all_at_least(merged(x, y), low));
        assert forall|i: int, j: int| 0 <= i <= j < m.len() implies m[i].size_in_bytes
            >= m[j].size_in_bytes by {
            if j < m.len() - 1 {
                assert(m[j] == merged(x, y)[j]);
            }
            if i < m.len() - 1 {
                assert(m[i] == merged(x, y)[i]);
            }
        }
        assert forall|size: u64|
            all_at_least(a, size) && all_at_least(b, size) implies #[trigger] all_at_least(
            m,
            size,
        ) by {
            assert(a[a.len() - 1].size_in_bytes >= size);
            assert(b[b.len() - 1].size_in_bytes >= size);
            assert(all_at_least(x, size) && all_at_least(y, size));
            assert(all_at_least(merged(x, y), size));
            assert forall|i: int| 0 <= i < m.len() implies (#[trigger] m[i]).size_in_bytes
                >= size by {
                if i < m.len() - 1 {
                    assert(m[i] == merged(x, y)[i]);
                }
            }
        }
    }
}

proof fn lemma_merged_of_size(a: Seq<Entry>, b: Seq<Entry>, size: u64)
    requires
        sorted_by_size(a),
        sorted_by_size(b),
    ensures
        of_size(merged(a, b), size) == of_size(a, size) + of_size(b, size),
    decreases a.len() + b.len(),
{
    let both = of_size(a, size) + of_size(b, size);
    if a.len() == 0 {
        assert(both =~= of_size(b, size));
    } else if b.len() == 0 {
        assert(both =~= of_size(a, size));
    } else if a.last().size_in_bytes < b.last().size_in_bytes {
        lemma_merged_of_size(a.drop_last(), b, size);
        assert(merged(a, b).drop_last() =~= merged(a.drop_last(), b));
        if a.last().size_in_bytes == size {
            lemma_of_size_below(b, size);
        }
        assert(of_size(merged(a, b), size) =~= both);
    } else {
        lemma_merged_of_size(a, b.drop_last(), size);
        assert(merged(a, b).drop_last() =~= merged(a, b.drop_last()));
        assert(of_size(merged(a, b), size) =~= both);
    }
}

proof fn lemma_size_sum_concat(a: Seq<Entry>, b: Seq<Entry>)
    ensures
        size_sum(a + b) == size_sum(a) + size_sum(b),
    decreases b.len(),
{
    if b.len() == 0 {
        assert(a + b =~= a);
    } else {
        assert((a + b).drop_last() =~= a + b.drop_last());
        lemma_size_sum_concat(a, b.drop_last());
    }
}

proof fn lemma_merged_contents(a: Seq<Entry>, b: Seq<Entry>)
    ensures
        size_sum(merged(a, b)) == size_sum(a) + size_sum(b),
        merged(a, b).to_multiset() =~= a.to_multiset().add(b.to_multiset()),
    decreases a.len() + b.len(),
{
    broadcast use vstd::seq_lib::group_to_multiset_ensures;

    if a.len() > 0 && b.len() > 0 {
        let (x, y, taken) = if a.last().size_in_bytes < b.last().size_in_bytes {
            (a.drop_last(), b, a.last())
        } else {
            (a, b.drop_last(), b.last())
        };
        lemma_merged_contents(x, y);
        assert(merged(a, b).drop_last() =~= merged(x, y));
        assert(a =~= a.drop_last().push(a.last()));
        assert(b =~= b.drop_last().push(b.last()));
        assert(merged(a, b).to_multiset() =~= merged(x, y).to_multiset().insert(taken));
    }
}

/// An entry of the size that `of_size` asks for is among what it gives.
proof fn lemma_of_size_has(entries: Seq<Entry>, i: int)
    requires
        0 <= i < entries.len(),
    ensures
        of_size(entries, entries[i].size_in_bytes).len() > 0,
    decreases entries.len(),
{
    if i < entries.len() - 1 {
        lemma_of_size_has(entries.drop_last(), i);
    }
}

/// Where `of_size` gives something, some entry has that size.
proof fn lemma_of_size_from(entries: Seq<Entry>, size: u64) -> (i: int)
    requires
        of_size(entries, size).len() > 0,
    ensures
        0 <= i < entries.len(),
        entries[i].size_in_bytes == size,
    decreases entries.len(),
{
    if entries.last().size_in_bytes == size {
        entries.len() - 1
    } else {
        lemma_of_size_from(entries.drop_last(), size)
    }
}

/// There is one order only that is descending by size and keeps entries of
/// one size as they stood: two lists that both are in it are the same list.
pub proof fn law_stable_sort_is_unique(entries: Seq<Entry>, one: Seq<Entry>, other: Seq<Entry>)
    requires
        is_stable_sort(entries, one),
        is_stable_sort(entries, other),
    ensures
        one == other,
{
    assert forall|size: u64| #[trigger] of_size(one, size) == of_size(other, size) by {
        assert(of_size(one, size) == of_size(entries, size));
        assert(of_size(other, size) == of_size(entries, size));
    }
    lemma_same_groups_same_list(one, other);
}

proof fn lemma_same_groups_same_list(one: Seq<Entry>, other: Seq<Entry>)
    requires
        sorted_by_size(one),
        sorted_by_size(other),
        one.len() == other.len(),
        forall|size: u64| #[trigger] of_size(one, size) == of_size(other, size),
    ensures
        one == other,
    decreases one.len(),
{
    if one.len() > 0 {
        let (p, q) = (one.last().size_in_bytes, other.last().size_in_bytes);
        lemma_of_size_has(one, one.len() - 1);
        lemma_of_size_has(other, other.len() - 1);
        assert(of_size(one, p) == of_size(other, p));
        assert(of_size(one, q) == of_size(other, q));
        let i = lemma_of_size_from(other, p);
        let j = lemma_of_size_from(one, q);
        assert(other[i].size_in_bytes >= other[other.len() - 1].size_in_bytes);
        assert(one[j].size_in_bytes >= one[one.len() - 1].size_in_bytes);
        assert(p == q);
        assert(of_size(one, p).last() == one.last());
        assert(of_size(other, p).last() == other.last());
        let (x, y) = (one.drop_last(), other.drop_last());
        assert forall|size: u64| #[trigger] of_size(x, size) == of_size(y, size) by {
            assert(of_size(one, size) == of_size(other, size));
            if size == p {
                assert(of_size(x, size) =~= of_size(one, size).drop_last());
                assert(of_size(y, size) =~= of_size(other, size).drop_last());
            }
        }
        lemma_same_groups_same_list(x, y);
        assert(one =~= x.push(one.last()));
        assert(other =~= y.push(other.last()));
    } else {
        assert(one =~= other);
    }
}

/// The same items, the last first.
pub(crate) fn reversed<T>(items: Vec<T>) -> (out: Vec<T>)
    ensures
        out@ == items@.reverse(),
{
    let mut rest = items;
    let mut out: Vec<T> = Vec::new();
    loop
        invariant
            rest@.len() <= items@.len(),
            rest@ == items@.subrange(0, rest@.len() as int),
            out@ == items@.subrange(rest@.len() as int, items@.len() as int).reverse(),
        ensures
            rest@.len() == 0,
        decreases rest@.len(),
    {
        match rest.pop() {
            Some(item) => {
                out.push(item);
                assert(out@ =~= items@.subrange(
                    rest@.len() as int,
                    items@.len() as int,
                ).reverse());
            },
            None => {
                break;
            },
        }
    }
    assert(out@ =~= items@.reverse());
    out
}

fn merge(left: Vec<Entry>, right: Vec<Entry>) -> (out: Vec<Entry>)
    ensures
        out@ == merged(left@, right@),
{
    let mut a = left;
    let mut b = right;
    let mut small_first: Vec<Entry> = Vec::new();
    assert(merged(a@, b@) + small_first@.reverse() =~= merged(left@, right@));
    while a.len() > 0 && b.len() > 0
        invariant
            merged(a@, b@) + small_first@.reverse() == merged(left@, right@),
        decreases a@.len() + b@.len(),
    {
        let ghost (a0, b0, s0) = (a@, b@, small_first@);
        let from_left = a[a.len() - 1].size_in_bytes < b[b.len() - 1].size_in_bytes;
        let taken = if from_left {
            a.pop()
        } else {
            b.pop()
        };
        if let Some(entry) = taken {
            proof {
                assert(a0.subrange(0, a0.len() - 1) =~= a0.drop_last());
                assert(b0.subrange(0, b0.len() - 1) =~= b0.drop_last());
            }
            small_first.push(entry);
            assert(merged(a0, b0) == merged(a@, b@).push(entry));
            assert(s0.push(entry).reverse() =~= seq![entry] + s0.reverse());
            assert(merged(a@, b@) + small_first@.reverse() =~= merged(a0, b0) + s0.reverse());
        }
    }
    let mut tail = reversed(small_first);
    let mut out = if a.len() == 0 {
        b
    } else {
        a
    };
    out.append(&mut tail);
    out
}

/// Puts the entries in descending order of size. Entries of one size keep
/// their order.
pub fn sort_by_size(entries: Vec<Entry>) -> (sorted: Vec<Entry>)
    ensures
        is_stable_sort(entries@, sorted@),
        sorted@.to_multiset() == entries@.to_multiset(),
        size_sum(sorted@) == size_sum(entries@),
    decreases entries@.len(),
{
    if entries.len() <= 1 {
        return entries;
    }
    let ghost all = entries@;
    let mut left = entries;
    let mid: usize = left.len() / 2;
    let right = left.split_off(mid);
    let ghost (l, r) = (left@, right@);
    let left = sort_by_size(left);
    let right = sort_by_size(right);
    proof {
        assert(all =~= l + r);
        lemma_merged(left@, right@);
        lemma_merged_contents(left@, right@);
        lemma_size_sum_concat(l, r);
        vstd::seq_lib::lemma_multiset_commutative(l, r);
        assert forall|size: u64| #[trigger]
            of_size(merged(left@, right@), size) == of_size(all, size) by {
            lemma_merged_of_size(left@, right@, size);
            lemma_of_size_concat(l, r, size);
        }
    }
    merge(left, right)
}

/// Lists of the same elements stay so when each element is mapped.
pub(crate) proof fn lemma_mapped_multiset<A, B>(a: Seq<A>, b: Seq<A>, f: spec_fn(A) -> B)
    requires
        a.to_multiset() == b.to_multiset(),
    ensures
        a.map_values(f).to_multiset() == b.map_values(f).to_multiset(),
    decreases a.len(),
{
    a.to_multiset_ensures();
    b.to_multiset_ensures();
    assert(a.len() == b.len());
    if a.len() == 0 {
        assert(a =~= b);
    } else {
        let x = a.last();
        assert(a.contains(x));
        assert(a.to_multiset().count(x) > 0);
        assert(b.to_multiset().count(x) > 0);
        assert(b.contains(x));
        let j = b.index_of(x);
        let less_a = a.remove(a.len() - 1);
        let less_b = b.remove(j);
        assert(less_a.to_multiset() == less_b.to_multiset());
        lemma_mapped_multiset(less_a, less_b, f);
        let mapped_a = a.map_values(f);
        let mapped_b = b.map_values(f);
        mapped_a.to_multiset_ensures();
        mapped_b.to_multiset_ensures();
        assert(less_a.map_values(f) =~= mapped_a.remove(a.len() - 1));
        assert(less_b.map_values(f) =~= mapped_b.remove(j));
        let rest_a = mapped_a.remove(a.len() - 1);
        let rest_b = mapped_b.remove(j);
        rest_a.to_multiset_ensures();
        rest_b.to_multiset_ensures();
        assert(mapped_a.contains(mapped_a[a.len() - 1]));
        assert(mapped_b.contains(mapped_b[j]));
        assert(mapped_a[a.len() - 1] == f(x));
        assert(mapped_b[j] == f(x));
        assert(mapped_a.to_multiset() =~= rest_a.to_multiset().insert(f(x)));
        assert(mapped_b.to_multiset() =~= rest_b.to_multiset().insert(f(x)));
    }
}

/// Nothing adds up to nothing, and the total of a single entry is its size.
pub proof fn law_one_entry_is_its_own_total(entry: Entry)
    ensures
        size_sum(Seq::empty()) == 0,
        size_sum(seq![entry]) == entry.size_in_bytes,
{
    reveal_with_fuel(size_sum, 2);
    assert(seq![entry].drop_last() =~= Seq::empty());
}

/// The total of two lists, one behind the other, is the sum of their totals.
pub proof fn law_totals_add_up(a: Seq<Entry>, b: Seq<Entry>)
    ensures
        size_sum(a + b) == size_sum(a) + size_sum(b),
    decreases b.len(),
{
    if b.len() == 0 {
        assert(a + b =~= a);
    } else {
        assert((a + b).drop_last() =~= a + b.drop_last());
        law_totals_add_up(a, b.drop_last());
    }
}

/// No entry is larger than the total, and where another entry stands beside it
/// the total has room for both.
pub proof fn law_no_entry_exceeds_the_total(entries: Seq<Entry>, i: int)
    requires
        0 <= i < entries.len(),
    ensures
        entries[i].size_in_bytes <= size_sum(entries),
        forall|j: int|
            0 <= j < entries.len() && j != i ==> entries[i].size_in_bytes + (
            #[trigger] entries[j]).size_in_bytes <= size_sum(entries),
{
    lemma_sum_without(entries, i);
    let rest = entries.remove(i);
    assert forall|j: int| 0 <= j < entries.len() && j != i implies entries[i].size_in_bytes + (
    #[trigger] entries[j]).size_in_bytes <= size_sum(entries) by {
        let k = if j < i {
            j
        } else {
            j - 1
        };
        lemma_sum_without(rest, k);
        assert(rest[k] == entries[j]);
    }
}

proof fn lemma_sum_without(entries: Seq<Entry>, i: int)
    requires
        0 <= i < entries.len(),
    ensures
        size_sum(entries) == size_sum(entries.remove(i)) + entries[i].size_in_bytes,
{
    let front = entries.subrange(0, i);
    let back = entries.subrange(i + 1, entries.len() as int);
    assert(entries =~= front + seq![entries[i]] + back);
    assert(entries.remove(i) =~= front + back);
    law_one_entry_is_its_own_total(entries[i]);
    law_totals_add_up(front + seq![entries[i]], back);
    law_totals_add_up(front, seq![entries[i]]);
    law_totals_add_up(front, back);
}

/// The total does not depend on the order of the entries.
pub proof fn law_totals_do_not_depend_on_the_order(a: Seq<Entry>, b: Seq<Entry>)
    requires
        a.to_multiset() == b.to_multiset(),
    ensures
        size_sum(a) == size_sum(b),
    decreases a.len(),
{
    a.to_multiset_ensures();
    b.to_multiset_ensures();
    assert(a.len() == b.len());
    if a.len() > 0 {
        let x = a[0];
        assert(a.contains(x));
        assert(a.to_multiset().count(x) > 0);
        assert(b.to_multiset().count(x) > 0);
        assert(b.contains(x));
        let j = b.index_of(x);
        assert(a.remove(0).to_multiset() == b.remove(j).to_multiset());
        law_totals_do_not_depend_on_the_order(a.remove(0), b.remove(j));
        lemma_sum_without(a, 0);
        lemma_sum_without(b, j);
    }
}

/// A sorted list stands in descending order of size, and holds the entries of
/// any one size as they stood in the list that was sorted: a stable sort.
pub proof fn law_sorting_is_stable(entries: Seq<Entry>, sorted: Seq<Entry>, size: u64)
    requires
        is_stable_sort(entries, sorted),
    ensures
        sorted.len() == entries.len(),
        forall|i: int, j: int|
            0 <= i < j < sorted.len() ==> (#[trigger] sorted[i]).size_in_bytes >= (
            #[trigger] sorted[j]).size_in_bytes,
        sorted.filter(|entry: Entry| entry.size_in_bytes == size) == entries.filter(
            |entry: Entry| entry.size_in_bytes == size,
        ),
{
    lemma_of_size_filters(sorted, size);
    lemma_of_size_filters(entries, size);
    assert(of_size(sorted, size) == of_size(entries, size));
}

proof fn lemma_of_size_filters(entries: Seq<Entry>, size: u64)
    ensures
        of_size(entries, size) == entries.filter(|entry: Entry| entry.size_in_bytes == size),
    decreases entries.len(),
{
    reveal(Seq::filter);
    if entries.len() > 0 {
        lemma_of_size_filters(entries.drop_last(), size);
    }
}

} // verus!
