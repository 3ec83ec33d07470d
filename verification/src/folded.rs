//! The aggregation table: every distinct stack that was seen, once, with the
//! number of weight contributions attributed to it.
//!
//! Stacks are kept in the order in which they were first seen; the position of
//! a stack is its slot, and a slot stays valid for the whole run.
use vstd::prelude::*;
use vstd::slice::slice_to_vec;
use hashbrown::HashMap;
use crate::interning::{interned, lemma_index_of_unique, lemma_interned, lemma_push_contains};
use crate::error::TraceError;
use crate::tables::{stack_entries, stacks_get, stacks_insert, stacks_new};

verus! {

/// The sum of a sequence of counts.
pub open spec fn sum(counts: Seq<u64>) -> int
    decreases counts.len(),
{
    if counts.len() == 0 {
        0
    } else {
        sum(counts.drop_last()) + counts.last()
    }
}

/// The counts after slot `slot` was given one more contribution; a slot at the
/// end of the table is new and starts from nothing.
pub open spec fn counted(counts: Seq<u64>, slot: int) -> Seq<u64> {
    if slot == counts.len() {
        counts.push(1)
    } else {
        counts.update(slot, (counts[slot] + 1) as u64)
    }
}

/// Whether `after` is `before` with one more contribution to `stack`, whose
/// slot is `slot`.
pub open spec fn added(before: Folded, after: Folded, stack: Seq<usize>, slot: usize) -> bool {
    &&& after.stacks() == interned(before.stacks(), stack)
    &&& slot as int == after.stacks().index_of(stack)
    &&& slot < after.stacks().len()
    &&& after.stacks()[slot as int] == stack
    &&& after.counts() == counted(before.counts(), slot as int)
    &&& after.total() == before.total() + 1
}

/// One more count at the end adds itself to the sum.
pub proof fn lemma_sum_push(counts: Seq<u64>, c: u64)
    ensures
        sum(counts.push(c)) == sum(counts) + c,
{
    assert(counts.push(c).drop_last() =~= counts);
}

/// No count is more than the sum, and raising one count raises the sum as much.
pub proof fn lemma_sum_update(counts: Seq<u64>, slot: int, c: u64)
    requires
        0 <= slot < counts.len(),
    ensures
        counts[slot] <= sum(counts),
        sum(counts.update(slot, c)) == sum(counts) - counts[slot] + c,
        sum(counts) >= 0,
    decreases counts.len(),
{
    let front = counts.drop_last();
    if slot == counts.len() - 1 {
        assert(counts.update(slot, c).drop_last() =~= front);
        lemma_sum_nonnegative(front);
    } else {
        lemma_sum_update(front, slot, c);
        assert(counts.update(slot, c).drop_last() =~= front.update(slot, c));
    }
}

/// A sum of counts is not negative.
pub proof fn lemma_sum_nonnegative(counts: Seq<u64>)
    ensures
        sum(counts) >= 0,
    decreases counts.len(),
{
    if counts.len() > 0 {
        lemma_sum_nonnegative(counts.drop_last());
    }
}

/// The aggregation table.
pub struct Folded {
    index: HashMap<Vec<usize>, usize>,
    keys: Vec<Vec<usize>>,
    hits: Vec<u64>,
    total: u64,
}

impl Folded {
    /// The stack of each slot.
    pub closed spec fn stacks(&self) -> Seq<Seq<usize>> {
        Seq::new(self.keys@.len(), |i: int| self.keys@[i]@)
    }

    /// The number of contributions of each slot.
    pub closed spec fn counts(&self) -> Seq<u64> {
        self.hits@
    }

    /// The number of contributions that were attributed in all.
    pub closed spec fn total(&self) -> int {
        self.total as int
    }

    /// The hash map agrees with the table.
    pub closed spec fn indexed(&self) -> bool {
        &&& forall|s: Seq<usize>| #[trigger] stack_entries(self.index).contains_key(s) <==> self.stacks().contains(s)
        &&& forall|i: int| 0 <= i < self.stacks().len() ==> stack_entries(self.index)[#[trigger] self.stacks()[i]] == i
    }

    /// Whether two tables hold the same stacks with the same counts.
    pub open spec fn same(&self, other: Folded) -> bool {
        &&& self.stacks() == other.stacks()
        &&& self.counts() == other.counts()
        &&& self.total() == other.total()
    }

    /// What holds of the table at all times: each stack has one slot, each
    /// slot one count, and the counts add up to what was attributed.
    pub open spec fn wf(&self) -> bool {
        &&& self.indexed()
        &&& self.stacks().no_duplicates()
        &&& self.counts().len() == self.stacks().len()
        &&& sum(self.counts()) == self.total()
    }

    /// A table without stacks.
    pub fn new() -> (r: Folded)
        ensures
            r.wf(),
            r.stacks() == Seq::<Seq<usize>>::empty(),
            r.counts() == Seq::<u64>::empty(),
            r.total() == 0,
    {
        let r = Folded { index: stacks_new(), keys: Vec::new(), hits: Vec::new(), total: 0 };
        proof {
            assert(r.stacks() =~= Seq::<Seq<usize>>::empty());
        }
        r
    }

    /// The number of slots.
    pub fn len(&self) -> (n: usize)
        ensures
            n == self.stacks().len(),
    {
        self.keys.len()
    }

    /// The stack of a slot.
    pub fn stack_at(&self, slot: usize) -> (stack: &[usize])
        requires
            slot < self.stacks().len(),
        ensures
            stack@ == self.stacks()[slot as int],
    {
        self.keys[slot].as_slice()
    }

    /// The number of contributions of a slot.
    pub fn count_at(&self, slot: usize) -> (count: u64)
        requires
            self.wf(),
            slot < self.stacks().len(),
        ensures
            count == self.counts()[slot as int],
    {
        self.hits[slot]
    }

    /// The slot of a stack, if the table holds it.
    pub fn find(&self, stack: &[usize]) -> (found: Option<usize>)
        requires
            self.wf(),
        ensures
            found is Some <==> self.stacks().contains(stack@),
            found matches Some(slot) ==> slot < self.stacks().len() && self.stacks()[slot as int] == stack@,
    {
        let found = stacks_get(&self.index, stack);
        proof {
            if self.stacks().contains(stack@) {
                let i = choose|i: int| 0 <= i < self.stacks().len() && self.stacks()[i] == stack@;
                assert(stack_entries(self.index)[self.stacks()[i]] == i);
            }
        }
        found
    }

    /// Attributes one contribution to a stack and returns its slot.
    ///
    /// A stack that the table does not hold yet gets the next slot, and its
    /// key is copied only then. Fails, and changes nothing, if the number of
    /// contributions no longer fits the counter.
    pub fn add(&mut self, stack: &[usize]) -> (r: Result<usize, TraceError>)
        requires
            old(self).wf(),
        ensures
            final(self).wf(),
            r is Err <==> old(self).total() == u64::MAX,
            r matches Err(e) ==> e is Overflow && final(self).same(*old(self)),
            r matches Ok(slot) ==> added(*old(self), *final(self), stack@, slot),
    {
        if self.total == u64::MAX {
            return Err(TraceError::Overflow);
        }
        let ghost before = self.stacks();
        let ghost counts = self.counts();
        proof {
            lemma_interned(before, stack@);
        }
        match self.find(stack) {
            Some(slot) => {
                proof {
                    lemma_sum_update(counts, slot as int, (counts[slot as int] + 1) as u64);
                    lemma_index_of_unique(before, slot as int);
                }
                let count: u64 = self.hits[slot];
                self.hits.set(slot, count + 1);
                self.total = self.total + 1;
                proof {
                    assert(self.stacks() =~= before);
                    assert(self.counts() =~= counted(counts, slot as int));
                    assert(self.indexed());
                }
                Ok(slot)
            },
            None => {
                let slot: usize = self.keys.len();
                self.keys.push(slice_to_vec(stack));
                self.hits.push(1);
                let _ = stacks_insert(&mut self.index, slice_to_vec(stack), slot);
                self.total = self.total + 1;
                proof {
                    assert(self.stacks() =~= before.push(stack@));
                    lemma_sum_push(counts, 1);
                    assert forall|s: Seq<usize>| #[trigger] stack_entries(self.index).contains_key(s) <==> self.stacks().contains(s) by {
                        lemma_push_contains(before, stack@, s);
                        assert(stack_entries(old(self).index).contains_key(s) <==> before.contains(s));
                    }
                    assert forall|i: int| 0 <= i < self.stacks().len() implies stack_entries(self.index)[#[trigger] self.stacks()[i]] == i by {
                        if i < before.len() {
                            assert(before[i] == self.stacks()[i]);
                            assert(before.contains(before[i]));
                            assert(stack_entries(old(self).index)[before[i]] == i);
                        }
                    }
                    assert(self.indexed());
                    lemma_index_of_unique(self.stacks(), slot as int);
                }
                Ok(slot)
            },
        }
    }
}

/// A stack has one slot: two slots that hold the same sequence of call ids
/// are the same slot.
pub proof fn lemma_one_slot_per_stack(table: Folded, a: int, b: int)
    requires
        table.wf(),
        0 <= a < table.stacks().len(),
        0 <= b < table.stacks().len(),
        table.stacks()[a] == table.stacks()[b],
    ensures
        a == b,
{
}

/// A stack keeps its slot: when a stack is given a contribution, and later,
/// after the table has grown in whatever way, the same stack is given
/// another, both go to the same slot, and the second makes no new entry.
pub proof fn lemma_same_stack_same_slot(
    first_before: Folded,
    first_after: Folded,
    second_before: Folded,
    second_after: Folded,
    stack: Seq<usize>,
    first_slot: usize,
    second_slot: usize,
)
    requires
        first_before.wf(),
        second_before.wf(),
        second_after.wf(),
        added(first_before, first_after, stack, first_slot),
        first_after.stacks().is_prefix_of(second_before.stacks()),
        added(second_before, second_after, stack, second_slot),
    ensures
        second_slot == first_slot,
        second_after.stacks() == second_before.stacks(),
{
    assert(second_before.stacks()[first_slot as int] == stack);
    lemma_index_of_unique(second_before.stacks(), first_slot as int);
}

/// Nothing is lost and nothing counted twice: the counts of all slots add up
/// to the number of contributions, and each contribution raises that number
/// by one.
pub proof fn lemma_add_conserves(before: Folded, after: Folded, stack: Seq<usize>, slot: usize)
    requires
        before.wf(),
        after.wf(),
        added(before, after, stack, slot),
    ensures
        sum(after.counts()) == sum(before.counts()) + 1,
        sum(after.counts()) == after.total(),
{
}

} // verus!
