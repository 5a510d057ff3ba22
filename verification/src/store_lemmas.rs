//! What the slot store guarantees: that its operations keep it well formed,
//! what an insertion and a removal do to the handles that exist, and that the
//! handles promised ahead of time are the handles that the insertions get.

use vstd::prelude::*;
use crate::ordered_vec::{Slot, StoreView};
use crate::utils::{from_id, lemma_codec_inverse, IndexPair, FIELD_SPAN};

verus! {

/// A duplicate-free sequence of numbers below `bound` has at most `bound`
/// entries.
pub proof fn lemma_bounded_distinct_len(s: Seq<usize>, bound: nat)
    requires
        s.no_duplicates(),
        forall|i: int| 0 <= i < s.len() ==> s[i] < bound,
    ensures
        s.len() <= bound,
    decreases bound,
{
    if bound == 0 {
        if s.len() > 0 {
            assert(s[0] < bound);
        }
    } else {
        let top = (bound - 1) as usize;
        if s.contains(top) {
            let k = choose|k: int| 0 <= k < s.len() && s[k] == top;
            let rest = s.remove(k);
            assert(rest.no_duplicates()) by {
                assert forall|i: int, j: int|
                    0 <= i < rest.len() && 0 <= j < rest.len() && i != j implies rest[i]
                    != rest[j] by {
                    let ii = if i < k { i } else { i + 1 };
                    let jj = if j < k { j } else { j + 1 };
                    assert(rest[i] == s[ii] && rest[j] == s[jj]);
                }
            }
            lemma_bounded_distinct_len(rest, (bound - 1) as nat);
        } else {
            lemma_bounded_distinct_len(s, (bound - 1) as nat);
        }
    }
}

impl<T> StoreView<T> {
    /// There are no more free positions than slots.
    pub proof fn lemma_free_within_slots(self)
        requires
            self.wf(),
        ensures
            self.missing.len() <= self.slots.len(),
    {
        lemma_bounded_distinct_len(self.missing, self.slots.len());
    }

    /// Taking a value in keeps the store well formed, and the handle that
    /// is returned resolves to the value.
    pub proof fn lemma_push_resolves(self, elem: T)
        requires
            self.wf(),
            self.insertable(),
        ensures
            self.push(elem).wf(),
            self.push(elem).get(self.next_id()) == Some(elem),
            self.push(elem).count() == self.count() + 1,
    {
        let after = self.push(elem);
        self.lemma_free_within_slots();
        if self.missing.len() == 0 {
            lemma_codec_inverse(IndexPair { index: self.slots.len() as u32, version: 0 }, 0);
        } else {
            let index = self.missing.last();
            lemma_codec_inverse(
                IndexPair {
                    index: index as u32,
                    version: (self.slots[index as int].version + 1) as u32,
                },
                0,
            );
        }
    }

    /// Taking the value out of an occupied position keeps the store well
    /// formed.
    pub proof fn lemma_vacate(self, index: usize)
        requires
            self.wf(),
            index < self.slots.len(),
            self.slots[index as int].value is Some,
        ensures
            self.vacate(index).wf(),
            self.vacate(index).count() + 1 == self.count(),
    {
        let after = self.vacate(index);
        assert(!self.missing.contains(index)) by {
            if self.missing.contains(index) {
                let k = choose|k: int| 0 <= k < self.missing.len() && self.missing[k] == index;
                assert(self.slots[self.missing[k] as int].value is None);
            }
        }
        after.lemma_free_within_slots();
    }

    /// Taking a value out keeps the store well formed, and the handle
    /// through which it was taken out resolves to nothing afterwards.
    pub proof fn lemma_remove_invalidates(self, id: u64)
        requires
            self.wf(),
        ensures
            self.remove(id).wf(),
            self.remove(id).get(id) is None,
            self.get(id) is Some ==> self.remove(id).count() + 1 == self.count(),
            self.get(id) is None ==> self.remove(id) == self,
    {
        if self.get(id) is Some {
            self.lemma_vacate(from_id(id).index as usize);
        }
    }

    /// Putting a value under a handle keeps the store well formed. If the
    /// handle is taken, it resolves to the value afterwards, and the slot at
    /// its position holds the value at its version. A position at or beyond
    /// the end is always taken: the store then ends with that position, and
    /// the positions between the old end and it are skipped, so that no
    /// handle resolves to them. Every handle that resolved before resolves to
    /// the same value as before.
    pub proof fn lemma_insert_resolves(self, id: u64, elem: T, other: u64)
        requires
            self.wf(),
        ensures
            self.insert(id, elem).wf(),
            self.refusal(id) is Some ==> self.insert(id, elem) == self,
            self.refusal(id) is None ==> self.insert(id, elem).get(id) == Some(elem),
            self.refusal(id) is None ==> self.insert(id, elem).slots[from_id(id).index as int]
                == (Slot { value: Some(elem), version: from_id(id).version }),
            from_id(id).index >= self.slots.len() ==> {
                &&& self.refusal(id) is None
                &&& self.insert(id, elem).slots.len() == from_id(id).index + 1
                &&& forall|j: int|
                    self.slots.len() <= j < from_id(id).index ==> #[trigger] self.insert(
                        id,
                        elem,
                    ).skipped(j)
                &&& from_id(other).index < from_id(id).index && self.get(other) is None
                    ==> self.insert(id, elem).get(other) is None
            },
            from_id(id).index < self.slots.len() ==> self.insert(id, elem).slots.len()
                == self.slots.len(),
            self.get(other) is Some ==> self.insert(id, elem).get(other) == self.get(other),
    {
        if self.refusal(id) is None {
            let pair = from_id(id);
            let index = pair.index as usize;
            let after = self.insert(id, elem);
            if pair.index >= self.slots.len() {
                assert forall|i: int| 0 <= i < after.missing.len() implies (
                #[trigger] after.missing[i]) < after.slots.len()
                    && after.slots[after.missing[i] as int].value is None by {
                    assert(self.missing[i] < self.slots.len());
                }
                assert forall|j: int| self.slots.len() <= j < pair.index implies #[trigger] after.skipped(
                    j,
                ) by {
                    if after.missing.contains(j as usize) {
                        let k = choose|k: int|
                            0 <= k < self.missing.len() && self.missing[k] == j as usize;
                        assert(self.missing[k] < self.slots.len());
                    }
                }
            } else if self.missing.contains(index) {
                let at = self.missing.index_of(index);
                assert forall|i: int, j: int|
                    0 <= i < after.missing.len() && 0 <= j < after.missing.len() && i != j implies after.missing[i]
                    != after.missing[j] by {
                    let ii = if i < at { i } else { i + 1 };
                    let jj = if j < at { j } else { j + 1 };
                    assert(after.missing[i] == self.missing[ii]);
                    assert(after.missing[j] == self.missing[jj]);
                }
                assert forall|i: int| 0 <= i < after.missing.len() implies (
                #[trigger] after.missing[i]) < after.slots.len()
                    && after.slots[after.missing[i] as int].value is None by {
                    let ii = if i < at { i } else { i + 1 };
                    assert(after.missing[i] == self.missing[ii]);
                }
            } else {
                assert forall|i: int| 0 <= i < after.missing.len() implies (
                #[trigger] after.missing[i]) < after.slots.len()
                    && after.slots[after.missing[i] as int].value is None by {
                    assert(self.missing.contains(self.missing[i]));
                }
            }
        }
    }

    /// Clearing twice is clearing once; a cleared store holds no value, and
    /// the empty store is cleared already.
    pub proof fn lemma_clear_idempotent(self)
        requires
            self.wf(),
        ensures
            self.cleared().wf(),
            self.cleared().count() == 0,
            self.cleared().cleared() == self.cleared(),
            forall|id: u64| self.cleared().get(id) is None,
            StoreView::<T>::empty().cleared() == StoreView::<T>::empty(),
            StoreView::<T>::empty().values() == Seq::<Option<T>>::empty(),
    {
        let after = self.cleared();
        assert forall|j: int|
            0 <= j < after.slots.len() && (#[trigger] after.slots[j]).value is None implies after.missing.contains(
            j as usize,
        ) by {
            assert(after.missing[after.slots.len() - 1 - j] == j as usize);
        }
    }

    /// A value that was taken in and taken out again cannot be reached
    /// through its handle.
    pub proof fn lemma_push_remove(self, elem: T)
        requires
            self.wf(),
            self.insertable(),
        ensures
            self.push(elem).remove(self.next_id()).get(self.next_id()) is None,
    {
        self.lemma_push_resolves(elem);
        self.push(elem).lemma_remove_invalidates(self.next_id());
    }

    /// Its position is the next to be filled once a value was taken out, and
    /// the value that fills it gets a handle with the same position and the
    /// next version: another handle than the one of the value taken out,
    /// which goes on resolving to nothing. No slot is added for it.
    pub proof fn lemma_reuse_renews_handle(self, id: u64, elem: T)
        requires
            self.wf(),
            self.get(id) is Some,
            from_id(id).version < u32::MAX,
        ensures
            self.remove(id).insertable(),
            from_id(self.remove(id).next_id()).index == from_id(id).index,
            from_id(self.remove(id).next_id()).version == from_id(id).version + 1,
            self.remove(id).next_id() != id,
            self.remove(id).push(elem).slots.len() == self.slots.len(),
            self.remove(id).push(elem).get(id) is None,
            self.remove(id).push(elem).get(self.remove(id).next_id()) == Some(elem),
    {
        let freed = self.remove(id);
        self.lemma_remove_invalidates(id);
        freed.lemma_push_resolves(elem);
        let pair = from_id(id);
        lemma_codec_inverse(
            IndexPair { index: pair.index, version: (pair.version + 1) as u32 },
            id,
        );
    }

    /// Taking a value in leaves every handle that resolved before resolving
    /// to the same value.
    pub proof fn lemma_push_keeps(self, elem: T, id: u64)
        requires
            self.wf(),
            self.get(id) is Some,
        ensures
            self.push(elem).get(id) == self.get(id),
    {
    }

    /// Taking a value out leaves every handle of another position as it
    /// was.
    pub proof fn lemma_remove_keeps(self, removed: u64, id: u64)
        requires
            self.wf(),
            from_id(removed).index != from_id(id).index,
        ensures
            self.remove(removed).get(id) == self.get(id),
    {
    }

    /// The first reservation is the handle of the next insertion, and it can
    /// be made exactly when a value can be taken in.
    pub proof fn lemma_first_reservation(self)
        requires
            self.wf(),
        ensures
            self.insertable() <==> self.reservation(0) is Some,
            self.insertable() ==> self.reservation(0) == Some(self.next_id()),
    {
    }

    /// The position and the version that a reservation promises: a free
    /// position from the top of the stack down at the version after its last,
    /// or a new position behind the slots at version 0.
    pub proof fn lemma_reservation_position(self, ordinal: nat)
        requires
            self.wf(),
            self.reservation(ordinal) is Some,
        ensures
            from_id(self.reservation(ordinal)->0).index == (if ordinal < self.missing.len() {
                self.missing[self.missing.len() - 1 - ordinal] as int
            } else {
                self.slots.len() + (ordinal - self.missing.len())
            }),
            from_id(self.reservation(ordinal)->0).version == (if ordinal < self.missing.len() {
                self.slots[self.missing[self.missing.len() - 1 - ordinal] as int].version + 1
            } else {
                0
            }),
    {
        let free = self.missing.len();
        if ordinal < free {
            let index = self.missing[free - 1 - ordinal];
            lemma_codec_inverse(
                IndexPair {
                    index: index as u32,
                    version: (self.slots[index as int].version + 1) as u32,
                },
                0,
            );
        } else {
            let index = self.slots.len() + (ordinal - free);
            lemma_codec_inverse(IndexPair { index: index as u32, version: 0 }, 0);
        }
    }

    /// Two reservations with different numbers promise different positions,
    /// and so different handles.
    pub proof fn lemma_reservations_distinct(self, first: nat, second: nat)
        requires
            self.wf(),
            first != second,
            self.reservation(first) is Some,
            self.reservation(second) is Some,
        ensures
            from_id(self.reservation(first)->0).index != from_id(
                self.reservation(second)->0,
            ).index,
            self.reservation(first) != self.reservation(second),
    {
        self.lemma_reservation_position(first);
        self.lemma_reservation_position(second);
    }

    /// A reservation promises a handle that resolves to nothing yet and that
    /// the store will take once the positions promised before it are filled:
    /// it names a free position at its next version, or a position behind the
    /// slots.
    pub proof fn lemma_reservation_is_unused(self, ordinal: nat)
        requires
            self.wf(),
            self.reservation(ordinal) is Some,
        ensures
            self.get(self.reservation(ordinal)->0) is None,
            self.refusal(self.reservation(ordinal)->0) is None,
    {
        self.lemma_reservation_position(ordinal);
        if ordinal < self.missing.len() {
            let index = self.missing[self.missing.len() - 1 - ordinal];
            assert(self.missing.contains(index));
        }
    }

    /// A skipped position waits for its value: no reservation promises it to
    /// another value, no handle resolves to it, and the store takes the value
    /// that arrives under a handle of this position, whatever else has been
    /// put into the store in the meantime.
    pub proof fn lemma_skipped_waits(self, id: u64, elem: T, ordinal: nat)
        requires
            self.wf(),
            self.skipped(from_id(id).index as int),
        ensures
            self.get(id) is None,
            self.refusal(id) is None,
            self.insert(id, elem).get(id) == Some(elem),
            self.insert(id, elem).missing == self.missing,
            self.reservation(ordinal) is Some ==> from_id(self.reservation(ordinal)->0).index
                != from_id(id).index,
    {
        self.lemma_insert_resolves(id, elem, id);
        if self.reservation(ordinal) is Some {
            self.lemma_reservation_position(ordinal);
            if ordinal < self.missing.len() {
                let index = self.missing[self.missing.len() - 1 - ordinal];
                assert(self.missing.contains(index));
            }
        }
    }

    /// The store takes a value under the handle of its first reservation, and
    /// does with it what an insertion does. Afterwards every later
    /// reservation has moved up by one: what was promised as number
    /// `ordinal + 1` is now promised as number `ordinal`.
    pub proof fn lemma_push_advances(self, elem: T, ordinal: nat)
        requires
            self.wf(),
            self.insertable(),
        ensures
            self.refusal(self.next_id()) is None,
            self.insert(self.next_id(), elem) == self.push(elem),
            self.push(elem).reservation(ordinal) == self.reservation(ordinal + 1),
    {
        self.lemma_first_reservation();
        self.lemma_reservation_position(0);
        self.lemma_free_within_slots();
    }

    /// The entries below `n` are the first entries below any larger bound.
    pub proof fn lemma_entries_prefix(self, n: nat, m: nat)
        requires
            n <= m <= self.slots.len(),
        ensures
            self.entries_below(n).len() <= self.entries_below(m).len(),
            forall|k: int|
                0 <= k < self.entries_below(n).len() ==> self.entries_below(m)[k]
                    == self.entries_below(n)[k],
        decreases m,
    {
        if n < m {
            self.lemma_entries_prefix(n, (m - 1) as nat);
        }
    }

    /// The entries below `n` are the values below `n`: each entry pairs a
    /// value with the handle that resolves to it, the positions of the
    /// entries ascend, and every handle that resolves to a value below `n`
    /// stands among them.
    pub proof fn lemma_entries_below(self, n: nat)
        requires
            self.slots.len() <= FIELD_SPAN,
            n <= self.slots.len(),
        ensures
            forall|k: int|
                0 <= k < self.entries_below(n).len() ==> from_id(
                    (#[trigger] self.entries_below(n)[k]).0,
                ).index < n && self.get(self.entries_below(n)[k].0) == Some(
                    self.entries_below(n)[k].1,
                ),
            forall|k: int, l: int|
                0 <= k < l < self.entries_below(n).len() ==> from_id(
                    (#[trigger] self.entries_below(n)[k]).0,
                ).index < from_id((#[trigger] self.entries_below(n)[l]).0).index,
            forall|id: u64|
                from_id(id).index < n && (#[trigger] self.get(id)) is Some
                    ==> self.entries_below(n).contains((id, self.get(id)->0)),
        decreases n,
    {
        if n > 0 {
            let below = self.entries_below((n - 1) as nat);
            let now = self.entries_below(n);
            let slot = self.slots[n - 1];
            let pair = IndexPair { index: (n - 1) as u32, version: slot.version };
            self.lemma_entries_below((n - 1) as nat);
            lemma_codec_inverse(pair, 0);
            assert forall|id: u64|
                from_id(id).index < n && (#[trigger] self.get(id)) is Some implies now.contains(
                (id, self.get(id)->0),
            ) by {
                if from_id(id).index < n - 1 {
                    let k = choose|k: int|
                        0 <= k < below.len() && below[k] == (id, self.get(id)->0);
                    assert(now[k] == below[k]);
                } else {
                    lemma_codec_inverse(from_id(id), id);
                    assert(now[now.len() - 1] == (id, self.get(id)->0));
                }
            }
        }
    }

    /// The entry number `k` below `n` stands for an occupied position below
    /// `n` with exactly `k` occupied positions below it, and pairs the handle
    /// of that position with its value.
    pub proof fn lemma_entry_position(self, n: nat, k: int)
        requires
            self.slots.len() <= FIELD_SPAN,
            n <= self.slots.len(),
            0 <= k < self.entries_below(n).len(),
        ensures
            from_id(self.entries_below(n)[k].0).index < n,
            self.slots[from_id(self.entries_below(n)[k].0).index as int].value == Some(
                self.entries_below(n)[k].1,
            ),
            self.slots[from_id(self.entries_below(n)[k].0).index as int].version == from_id(
                self.entries_below(n)[k].0,
            ).version,
            self.entries_below(from_id(self.entries_below(n)[k].0).index as nat).len() == k,
        decreases n,
    {
        let below = self.entries_below((n - 1) as nat);
        if k < below.len() {
            self.lemma_entry_position((n - 1) as nat, k);
        } else {
            let slot = self.slots[n - 1];
            lemma_codec_inverse(IndexPair { index: (n - 1) as u32, version: slot.version }, 0);
        }
    }

    /// Writing new values over the old ones keeps the store well formed and
    /// the handles as they are: each handle that resolved resolves to the
    /// value written for its entry, and no other handle resolves.
    pub proof fn lemma_rewritten(self, written: Seq<T>)
        requires
            self.wf(),
            written.len() == self.entries().len(),
        ensures
            self.rewritten(written).wf(),
            forall|k: int|
                0 <= k < written.len() ==> self.rewritten(written).get(
                    (#[trigger] self.entries()[k]).0,
                ) == Some(written[k]),
            forall|id: u64|
                self.get(id) is None ==> (#[trigger] self.rewritten(written).get(id)) is None,
    {
        let after = self.rewritten(written);
        assert forall|k: int| 0 <= k < written.len() implies after.get(
            (#[trigger] self.entries()[k]).0,
        ) == Some(written[k]) by {
            self.lemma_entry_position(self.slots.len(), k);
        }
    }

    /// Iteration visits exactly the values of the store: each entry pairs a
    /// value with the handle that resolves to it, the positions ascend, and
    /// every handle that resolves stands among the entries.
    pub proof fn lemma_entries(self)
        requires
            self.wf(),
        ensures
            forall|k: int|
                0 <= k < self.entries().len() ==> self.get((#[trigger] self.entries()[k]).0)
                    == Some(self.entries()[k].1),
            forall|k: int, l: int|
                0 <= k < l < self.entries().len() ==> from_id(
                    (#[trigger] self.entries()[k]).0,
                ).index < from_id((#[trigger] self.entries()[l]).0).index,
            forall|id: u64|
                (#[trigger] self.get(id)) is Some ==> self.entries().contains(
                    (id, self.get(id)->0),
                ),
    {
        self.lemma_entries_below(self.slots.len());
    }

    /// The free positions below `n`.
    pub open spec fn free_below(self, n: nat) -> Set<usize> {
        Set::new(|j: usize| j < n && self.slots[j as int].value is None)
    }

    /// Below `n` every position is either free or the position of an entry.
    pub proof fn lemma_entries_and_free(self, n: nat)
        requires
            n <= self.slots.len(),
            self.slots.len() <= FIELD_SPAN,
        ensures
            self.free_below(n).finite(),
            self.entries_below(n).len() + self.free_below(n).len() == n,
        decreases n,
    {
        broadcast use vstd::set::group_set_axioms;

        if n == 0 {
            assert(self.free_below(0) =~= Set::<usize>::empty());
        } else {
            let before = self.free_below((n - 1) as nat);
            self.lemma_entries_and_free((n - 1) as nat);
            if self.slots[n - 1].value is None {
                assert(self.free_below(n) =~= before.insert((n - 1) as usize));
            } else {
                assert(self.free_below(n) =~= before);
            }
        }
    }

    /// Iteration visits as many values as the store counts, if no position
    /// is skipped; with skipped positions it visits fewer, and never more.
    pub proof fn lemma_entries_count(self)
        requires
            self.wf(),
        ensures
            self.entries().len() <= self.count(),
            self.settled() ==> self.entries().len() == self.count(),
    {
        self.lemma_entries_and_free(self.slots.len());
        self.lemma_free_within_slots();
        self.missing.unique_seq_to_set();
        let free = self.free_below(self.slots.len());
        assert(self.missing.to_set().subset_of(free)) by {
            assert forall|j: usize| self.missing.to_set().contains(j) implies free.contains(j) by {
                let k = choose|k: int| 0 <= k < self.missing.len() && self.missing[k] == j;
                assert(self.missing[k] < self.slots.len());
            }
        }
        vstd::set_lib::lemma_len_subset(self.missing.to_set(), free);
        if self.settled() {
            assert(free =~= self.missing.to_set()) by {
                assert forall|j: usize| free.contains(j) implies self.missing.to_set().contains(
                    j,
                ) by {
                    assert(!self.skipped(j as int));
                }
            }
        }
    }
}

} // verus!
