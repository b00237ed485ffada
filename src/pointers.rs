use std::marker::PhantomData;
use std::sync::atomic::{AtomicUsize, Ordering};
use vstd::prelude::*;

use crate::align_vec::AlignVec;
use crate::memory::Memory;

verus! {

/// Views a row-major grid of vectors as a sequence of sequences.
pub open spec fn rows_view(rows: Seq<Vec<usize>>) -> Seq<Seq<usize>> {
    rows.map_values(|row: Vec<usize>| row@)
}

/// Whether some slot of the grid holds `pointer`.
pub open spec fn held_in(slots: Seq<Seq<usize>>, pointer: usize) -> bool {
    exists|t: int, d: int|
        0 <= t < slots.len() && 0 <= d < slots[t].len() && #[trigger] slots[t][d] == pointer
}

/// Whether some list holds `pointer`.
pub open spec fn listed_in(lists: Seq<Seq<usize>>, pointer: usize) -> bool {
    exists|t: int| 0 <= t < lists.len() && #[trigger] lists[t].contains(pointer)
}

/// The predicate that keeps, in a sweep, the pointers held in some slot.
pub open spec fn protected_by(slots: Seq<Seq<usize>>) -> spec_fn(usize) -> bool {
    |q: usize| held_in(slots, q)
}

/// The pointers of `list` that a sweep against `slots` frees.
pub open spec fn freed_by(list: Seq<usize>, slots: Seq<Seq<usize>>) -> Set<usize> {
    Set::new(|q: usize| list.contains(q) && !held_in(slots, q))
}

/// The pointers of `lists` before position `i` of list `t`, reading the
/// lists one after the other.
spec fn listed_before(lists: Seq<Seq<usize>>, t: int, i: int) -> Set<usize> {
    Set::new(
        |p: usize| listed_in(lists.take(t), p) || (t < lists.len() && lists[t].take(i).contains(p)),
    )
}

proof fn lemma_filter_no_duplicates(s: Seq<usize>, pred: spec_fn(usize) -> bool)
    requires
        s.no_duplicates(),
    ensures
        s.filter(pred).no_duplicates(),
    decreases s.len(),
{
    reveal(Seq::filter);
    if s.len() > 0 {
        let rest = s.drop_last();
        assert(rest.no_duplicates());
        lemma_filter_no_duplicates(rest, pred);
        if pred(s.last()) {
            if rest.filter(pred).contains(s.last()) {
                rest.lemma_filter_contains_rev(pred, s.last());
                let j = choose|j: int| 0 <= j < rest.len() && rest[j] == s.last();
                assert(s[j] == s[s.len() - 1]);
            }
        }
    }
}

/// The registry of hazard pointers: a `threads` x `domains` grid of hazard
/// slots and one retired list per thread, over a memory backend.
///
/// A slot holds `0` (null) when it protects nothing. Thread `t` writes only
/// row `t` of the grid and only retired list `t`.
///
/// Each operation takes the registry by `&mut` and is one indivisible step
/// of the protocol; the contracts relate the state before a step to the
/// state after it, so any interleaving of steps keeps `wf` and frees only
/// what no slot holds at the moment of the sweep.
#[derive(Debug)]
pub struct Pointers<T, M: Memory<T>> {
    hazardous: AlignVec<Vec<usize>>,
    retired: AlignVec<Vec<usize>>,
    domains: usize,
    threshold: usize,
    memory: M,
    value: PhantomData<T>,
}

impl<T, M: Memory<T>> Pointers<T, M> {
    /// The hazard slots, row `t` being thread `t`'s.
    pub closed spec fn slots(&self) -> Seq<Seq<usize>> {
        rows_view(self.hazardous@)
    }

    /// The retired lists, list `t` being thread `t`'s, oldest first.
    pub closed spec fn retired_lists(&self) -> Seq<Seq<usize>> {
        rows_view(self.retired@)
    }

    /// The number of threads.
    pub closed spec fn threads(&self) -> nat {
        self.hazardous@.len()
    }

    /// The number of slots per thread.
    pub closed spec fn domains(&self) -> nat {
        self.domains as nat
    }

    /// The retired-list length at which a sweep runs.
    pub closed spec fn threshold(&self) -> nat {
        self.threshold as nat
    }

    /// The backend's live allocations.
    pub closed spec fn allocated(&self) -> Map<usize, T> {
        self.memory.allocated()
    }

    /// The backend itself.
    pub closed spec fn backend(&self) -> M {
        self.memory
    }

    /// Whether some hazard slot currently holds `pointer`.
    pub open spec fn is_hazardous(&self, pointer: usize) -> bool {
        held_in(self.slots(), pointer)
    }

    /// Whether `pointer` waits in some retired list.
    pub open spec fn is_retired(&self, pointer: usize) -> bool {
        listed_in(self.retired_lists(), pointer)
    }

    /// The grid has one row of `domains` slots per thread, there is one
    /// retired list per thread, and every retired pointer is a live, nonnull
    /// allocation that waits in exactly one place.
    pub open spec fn wf(&self) -> bool {
        &&& self.slots().len() == self.threads()
        &&& self.retired_lists().len() == self.threads()
        &&& forall|t: int| 0 <= t < self.threads() ==> #[trigger] self.slots()[t].len() == self.domains()
        &&& forall|t: int, p: usize|
            0 <= t < self.threads() && #[trigger] self.retired_lists()[t].contains(p) ==> p != 0
                && self.allocated().contains_key(p)
        &&& forall|t: int| 0 <= t < self.threads() ==> #[trigger] self.retired_lists()[t].no_duplicates()
        &&& forall|t1: int, t2: int, p: usize|
            0 <= t1 < self.threads() && 0 <= t2 < self.threads() && t1 != t2
                && #[trigger] self.retired_lists()[t1].contains(p) ==> !#[trigger] self.retired_lists()[t2].contains(p)
    }

    /// Builds a registry for `threads` threads with `domains` slots each, all
    /// null, and no retired pointers; a thread's retired list is swept once it
    /// holds `threshold` pointers.
    pub fn new(memory: M, threads: usize, domains: usize, threshold: usize) -> (r: Self)
        ensures
            r.wf(),
            r.threads() == threads,
            r.domains() == domains,
            r.threshold() == threshold,
            r.backend() == memory,
            r.allocated() == memory.allocated(),
            forall|t: int, d: int| 0 <= t < threads && 0 <= d < domains ==> #[trigger] r.slots()[t][d] == 0,
            forall|t: int| 0 <= t < threads ==> #[trigger] r.retired_lists()[t] == Seq::<usize>::empty(),
    {
        let mut hazardous: Vec<Vec<usize>> = Vec::new();
        let mut retired: Vec<Vec<usize>> = Vec::new();
        let mut t: usize = 0;
        while t < threads
            invariant
                t <= threads,
                hazardous@.len() == t,
                retired@.len() == t,
                forall|i: int| 0 <= i < t ==> #[trigger] hazardous@[i]@ == Seq::new(domains as nat, |d: int| 0usize),
                forall|i: int| 0 <= i < t ==> #[trigger] retired@[i]@ == Seq::<usize>::empty(),
            decreases threads - t,
        {
            let mut row: Vec<usize> = Vec::new();
            let mut d: usize = 0;
            while d < domains
                invariant
                    d <= domains,
                    row@ == Seq::new(d as nat, |i: int| 0usize),
                decreases domains - d,
            {
                row.push(0);
                d = d + 1;
                assert(row@ =~= Seq::new(d as nat, |i: int| 0usize));
            }
            hazardous.push(row);
            retired.push(Vec::new());
            t = t + 1;
        }
        let r = Pointers {
            hazardous: AlignVec::new(hazardous),
            retired: AlignVec::new(retired),
            domains,
            threshold,
            memory,
            value: PhantomData,
        };
        assert forall|t: int, d: int| 0 <= t < threads && 0 <= d < domains implies #[trigger] r.slots()[t][d] == 0 by {
            assert(r.slots()[t] == hazardous@[t]@);
        }
        assert forall|t: int| 0 <= t < threads implies #[trigger] r.retired_lists()[t] == Seq::<usize>::empty() by {
            assert(r.retired_lists()[t] == retired@[t]@);
        }
        r
    }

    /// Whether any hazard slot currently holds `pointer`.
    pub fn hazardous(&self, pointer: usize) -> (r: bool)
        requires
            self.wf(),
        ensures
            r == self.is_hazardous(pointer),
    {
        let rows = self.hazardous.as_vec();
        let mut t: usize = 0;
        while t < rows.len()
            invariant
                self.wf(),
                rows@ == self.hazardous@,
                t <= rows@.len(),
                forall|i: int, d: int|
                    0 <= i < t && 0 <= d < self.slots()[i].len() ==> #[trigger] self.slots()[i][d] != pointer,
            decreases rows@.len() - t,
        {
            let row = &rows[t];
            assert(self.slots().len() == rows@.len());
            assert(row@ == self.slots()[t as int]);
            let mut d: usize = 0;
            while d < row.len()
                invariant
                    t < rows@.len(),
                    t < self.slots().len(),
                    row@ == self.slots()[t as int],
                    d <= row@.len(),
                    forall|j: int| 0 <= j < d ==> #[trigger] row@[j] != pointer,
                decreases row@.len() - d,
            {
                if row[d] == pointer {
                    assert(self.slots()[t as int][d as int] == pointer);
                    return true;
                }
                d = d + 1;
            }
            t = t + 1;
        }
        false
    }

    /// `next` is this registry with slot (`thread`, `domain`) set to
    /// `pointer` and nothing else changed.
    pub open spec fn publish_step(&self, thread: int, domain: int, pointer: usize, next: Self) -> bool {
        &&& next.slots() == self.slots().update(thread, self.slots()[thread].update(domain, pointer))
        &&& next.retired_lists() == self.retired_lists()
        &&& next.threads() == self.threads()
        &&& next.domains() == self.domains()
        &&& next.threshold() == self.threshold()
        &&& next.backend() == self.backend()
        &&& next.allocated() == self.allocated()
    }

    /// Stores `pointer` into slot (`thread`, `domain`).
    fn publish(&mut self, thread: usize, domain: usize, pointer: usize)
        requires
            old(self).wf(),
            thread < old(self).threads(),
            domain < old(self).domains(),
        ensures
            final(self).wf(),
            old(self).publish_step(thread as int, domain as int, pointer, *final(self)),
    {
        let ghost before = *self;
        assert(self.slots()[thread as int] == self.hazardous@[thread as int]@);
        let rows = self.hazardous.as_mut_vec();
        rows[thread].set(domain, pointer);
        assert(self.slots() =~= before.slots().update(thread as int, before.slots()[thread as int].update(domain as int, pointer)));
        assert(self.retired_lists() =~= before.retired_lists());
        assert forall|t: int| 0 <= t < self.threads() implies #[trigger] self.slots()[t].len() == self.domains by {
            assert(before.slots()[t].len() == self.domains);
        }
    }

    /// Publishes `pointer`, which the caller already knows to be live, in
    /// slot (`thread`, `domain`) and returns it.
    pub fn mark_ptr(&mut self, thread: usize, domain: usize, pointer: usize) -> (r: usize)
        requires
            old(self).wf(),
            thread < old(self).threads(),
            domain < old(self).domains(),
        ensures
            r == pointer,
            final(self).wf(),
            old(self).publish_step(thread as int, domain as int, pointer, *final(self)),
    {
        self.publish(thread, domain, pointer);
        pointer
    }

    /// Sets slot (`thread`, `domain`) back to null.
    pub fn clear(&mut self, thread: usize, domain: usize)
        requires
            old(self).wf(),
            thread < old(self).threads(),
            domain < old(self).domains(),
        ensures
            final(self).wf(),
            old(self).publish_step(thread as int, domain as int, 0, *final(self)),
    {
        self.publish(thread, domain, 0);
    }

    /// Decides one round of protecting a pointer read from a shared
    /// location: `published` is the value read and published, `reloaded` the
    /// value read again after publication. The round holds, and yields the
    /// published pointer, exactly when the two reads agree.
    pub fn settled(published: usize, reloaded: usize) -> (r: Option<usize>)
        ensures
            r == (if published == reloaded {
                Some(published)
            } else {
                None::<usize>
            }),
    {
        if published == reloaded {
            Some(published)
        } else {
            None
        }
    }

    /// One round of protecting the pointer held in `source`: reads it,
    /// publishes what was read in slot (`thread`, `domain`), reads it again,
    /// and decides by [`Self::settled`]. `None` means `source` moved in
    /// between, and the round should be repeated.
    ///
    /// What `source` holds depends on other threads, so this states what
    /// holds for every pair of values read: only this slot changes, and a
    /// pointer returned is the one the slot now holds.
    pub fn try_mark(&mut self, thread: usize, domain: usize, source: &AtomicUsize) -> (r: Option<usize>)
        requires
            old(self).wf(),
            thread < old(self).threads(),
            domain < old(self).domains(),
        ensures
            final(self).wf(),
            old(self).publish_step(
                thread as int,
                domain as int,
                final(self).slots()[thread as int][domain as int],
                *final(self),
            ),
            r matches Some(p) ==> p == final(self).slots()[thread as int][domain as int],
    {
        let value = source.load(Ordering::Acquire);
        self.mark_ptr(thread, domain, value);
        let again = source.load(Ordering::Acquire);
        Self::settled(value, again)
    }

    /// Frees `pointer` unless some slot holds it; returns whether it was freed.
    fn kill(&mut self, pointer: usize) -> (r: bool)
        requires
            old(self).wf(),
            pointer != 0,
            old(self).allocated().contains_key(pointer),
            !old(self).is_retired(pointer),
        ensures
            final(self).wf(),
            r == !old(self).is_hazardous(pointer),
            final(self).allocated() == if r {
                old(self).allocated().remove(pointer)
            } else {
                old(self).allocated()
            },
            final(self).slots() == old(self).slots(),
            final(self).retired_lists() == old(self).retired_lists(),
            final(self).threads() == old(self).threads(),
            final(self).domains() == old(self).domains(),
            final(self).threshold() == old(self).threshold(),
    {
        if self.hazardous(pointer) {
            false
        } else {
            self.memory.deallocate(pointer);
            true
        }
    }

    /// Frees every pointer of `thread`'s retired list that no slot holds and
    /// keeps the others, in order.
    fn sweep(&mut self, thread: usize)
        requires
            old(self).wf(),
            thread < old(self).threads(),
        ensures
            final(self).wf(),
            final(self).slots() == old(self).slots(),
            final(self).retired_lists() == old(self).retired_lists().update(
                thread as int,
                old(self).retired_lists()[thread as int].filter(protected_by(old(self).slots())),
            ),
            final(self).allocated() == old(self).allocated().remove_keys(
                freed_by(old(self).retired_lists()[thread as int], old(self).slots()),
            ),
            final(self).threads() == old(self).threads(),
            final(self).domains() == old(self).domains(),
            final(self).threshold() == old(self).threshold(),
    {
        let ghost before = *self;
        let ghost pred = protected_by(before.slots());
        let mut list: Vec<usize> = Vec::new();
        let lists = self.retired.as_mut_vec();
        std::mem::swap(&mut list, &mut lists[thread]);
        assert(list@ == before.retired_lists()[thread as int]);
        assert(self.retired_lists() =~= before.retired_lists().update(thread as int, Seq::empty()));
        assert(self.slots() == before.slots());
        assert(list@.take(0) =~= Seq::<usize>::empty());
        assert(self.allocated() =~= before.allocated().remove_keys(freed_by(list@.take(0), before.slots())));
        proof {
            reveal(Seq::filter);
        }
        let mut kept: Vec<usize> = Vec::new();
        let mut i: usize = 0;
        while i < list.len()
            invariant
                list@ == before.retired_lists()[thread as int],
                thread < before.threads(),
                before.wf(),
                i <= list@.len(),
                self.wf(),
                self.slots() == before.slots(),
                self.retired_lists() == before.retired_lists().update(thread as int, Seq::empty()),
                self.threads() == before.threads(),
                self.domains() == before.domains(),
                self.threshold() == before.threshold(),
                kept@ == list@.take(i as int).filter(pred),
                pred == protected_by(before.slots()),
                self.allocated() == before.allocated().remove_keys(freed_by(list@.take(i as int), before.slots())),
            decreases list@.len() - i,
        {
            let p = list[i];
            assert(before.retired_lists()[thread as int].contains(p));
            assert(!list@.take(i as int).contains(p)) by {
                assert(before.retired_lists()[thread as int].no_duplicates());
                if list@.take(i as int).contains(p) {
                    let j = choose|j: int| 0 <= j < i && list@.take(i as int)[j] == p;
                    assert(list@[j] == list@[i as int]);
                }
            }
            assert(!self.is_retired(p)) by {
                if self.is_retired(p) {
                    let t = choose|t: int| 0 <= t < self.retired_lists().len() && #[trigger] self.retired_lists()[t].contains(p);
                    assert(t != thread);
                    assert(before.retired_lists()[t].contains(p));
                }
            }
            let ghost freed_before = freed_by(list@.take(i as int), before.slots());
            let gone = self.kill(p);
            if !gone {
                kept.push(p);
            }
            proof {
                let next = list@.take(i as int + 1);
                assert(next =~= list@.take(i as int).push(p));
                assert(next.drop_last() =~= list@.take(i as int));
                reveal(Seq::filter);
                assert(pred(p) == before.is_hazardous(p));
                assert(kept@ =~= next.filter(pred));
                assert(freed_by(next, before.slots()) =~= if gone {
                    freed_before.insert(p)
                } else {
                    freed_before
                });
                assert(self.allocated() =~= before.allocated().remove_keys(freed_by(next, before.slots())));
            }
            i = i + 1;
        }
        assert(list@.take(i as int) =~= list@);
        proof {
            lemma_filter_no_duplicates(list@, pred);
        }
        let ghost emptied = *self;
        let lists = self.retired.as_mut_vec();
        std::mem::swap(&mut kept, &mut lists[thread]);
        assert(self.retired@ == emptied.retired@.update(thread as int, self.retired@[thread as int]));
        assert(self.retired@[thread as int]@ == list@.filter(pred));
        assert forall|t: int| 0 <= t < self.threads() && t != thread implies self.retired_lists()[t]
            == before.retired_lists()[t] by {
            assert(self.retired@[t] == emptied.retired@[t]);
            assert(emptied.retired_lists()[t] == before.retired_lists()[t]);
        }
        assert(self.retired_lists() =~= before.retired_lists().update(thread as int, list@.filter(pred)));
        assert(self.slots() == before.slots());
        assert forall|t: int, p: usize|
            0 <= t < self.threads() && #[trigger] self.retired_lists()[t].contains(p) implies p != 0
                && self.allocated().contains_key(p) by {
            if t == thread {
                list@.lemma_filter_contains_rev(pred, p);
                let j = choose|j: int| 0 <= j < list@.filter(pred).len() && list@.filter(pred)[j] == p;
                list@.lemma_filter_pred(pred, j);
            } else {
                assert(emptied.retired_lists()[t].contains(p));
            }
        }
        assert forall|t1: int, t2: int, p: usize|
            0 <= t1 < self.threads() && 0 <= t2 < self.threads() && t1 != t2
                && #[trigger] self.retired_lists()[t1].contains(p) implies !#[trigger] self.retired_lists()[t2].contains(p) by {
            if t1 == thread {
                list@.lemma_filter_contains_rev(pred, p);
            }
            if t2 == thread && self.retired_lists()[t2].contains(p) {
                list@.lemma_filter_contains_rev(pred, p);
            }
        }
    }

    /// `next` is this registry after `pointer` joined the end of `thread`'s
    /// retired list, followed, once that list holds `threshold` pointers, by
    /// a sweep that frees those no slot holds and keeps the rest in order.
    pub open spec fn retire_step(&self, thread: int, pointer: usize, next: Self) -> bool {
        let grown = self.retired_lists()[thread].push(pointer);
        &&& next.slots() == self.slots()
        &&& next.threads() == self.threads()
        &&& next.domains() == self.domains()
        &&& next.threshold() == self.threshold()
        &&& if grown.len() >= self.threshold() {
            &&& next.retired_lists() == self.retired_lists().update(
                thread,
                grown.filter(protected_by(self.slots())),
            )
            &&& next.allocated() == self.allocated().remove_keys(freed_by(grown, self.slots()))
        } else {
            &&& next.retired_lists() == self.retired_lists().update(thread, grown)
            &&& next.allocated() == self.allocated()
        }
    }

    /// Hands `pointer`, already unlinked from the shared structure, to
    /// `thread` for reclamation: it joins the thread's retired list, and once
    /// that list holds `threshold` pointers every one of them that no slot
    /// holds is freed.
    pub fn retire(&mut self, thread: usize, pointer: usize)
        requires
            old(self).wf(),
            thread < old(self).threads(),
            pointer != 0,
            old(self).allocated().contains_key(pointer),
            !old(self).is_retired(pointer),
        ensures
            final(self).wf(),
            old(self).retire_step(thread as int, pointer, *final(self)),
    {
        let ghost before = *self;
        let lists = self.retired.as_mut_vec();
        lists[thread].push(pointer);
        let ghost grown = before.retired_lists()[thread as int].push(pointer);
        assert(self.retired@ == before.retired@.update(thread as int, self.retired@[thread as int]));
        assert(self.retired_lists() =~= before.retired_lists().update(thread as int, grown));
        assert(self.slots() == before.slots());
        assert(self.allocated() == before.allocated());
        assert(grown.no_duplicates()) by {
            assert(before.retired_lists()[thread as int].no_duplicates());
            assert(!before.retired_lists()[thread as int].contains(pointer));
        }
        assert forall|t: int, p: usize|
            0 <= t < self.threads() && #[trigger] self.retired_lists()[t].contains(p) implies p != 0
                && self.allocated().contains_key(p) by {
            if t == thread && p != pointer {
                assert(before.retired_lists()[t].contains(p));
            }
        }
        assert forall|t1: int, t2: int, p: usize|
            0 <= t1 < self.threads() && 0 <= t2 < self.threads() && t1 != t2
                && #[trigger] self.retired_lists()[t1].contains(p) implies !#[trigger] self.retired_lists()[t2].contains(p) by {
            if self.retired_lists()[t2].contains(p) {
                if p == pointer {
                    assert(!before.retired_lists()[t1].contains(p));
                    assert(!before.retired_lists()[t2].contains(p));
                } else {
                    assert(before.retired_lists()[t1].contains(p));
                    assert(before.retired_lists()[t2].contains(p));
                }
            }
        }
        assert(self.retired_lists()[thread as int] == grown);
        if self.retired.as_vec()[thread].len() >= self.threshold {
            let ghost pushed = *self;
            self.sweep(thread);
            assert(self.retired_lists() =~= before.retired_lists().update(
                thread as int,
                grown.filter(protected_by(before.slots())),
            ));
            assert(pushed.retired_lists()[thread as int] == grown);
        }
    }

    /// `memory` is this registry's backend once every retired pointer, and
    /// nothing else, has been freed.
    pub open spec fn teardown_result(&self, memory: M) -> bool {
        memory.allocated() == self.allocated().remove_keys(Set::new(|p: usize| self.is_retired(p)))
    }

    /// Tears the registry down: frees every pointer still waiting in a
    /// retired list, whether or not a slot holds it, and returns the backend.
    ///
    /// No thread may still be using the protected structure.
    pub fn teardown(self) -> (memory: M)
        requires
            self.wf(),
        ensures
            self.teardown_result(memory),
    {
        let ghost before = self;
        let ghost lists = before.retired_lists();
        let Pointers { retired, memory, .. } = self;
        let mut memory = memory;
        let rows = retired.as_vec();
        assert(rows@.len() == lists.len());
        assert(listed_before(lists, 0, 0) =~= Set::<usize>::empty()) by {
            assert(lists.take(0) =~= Seq::<Seq<usize>>::empty());
            if lists.len() > 0 {
                assert(lists[0].take(0) =~= Seq::<usize>::empty());
            }
        }
        assert(memory.allocated() =~= before.allocated().remove_keys(listed_before(lists, 0, 0)));
        let mut t: usize = 0;
        while t < rows.len()
            invariant
                before.wf(),
                rows@ == before.retired@,
                lists == before.retired_lists(),
                lists.len() == rows@.len(),
                t <= rows@.len(),
                memory.allocated() == before.allocated().remove_keys(listed_before(lists, t as int, 0)),
            decreases rows@.len() - t,
        {
            let row = &rows[t];
            assert(row@ == lists[t as int]);
            let mut i: usize = 0;
            while i < row.len()
                invariant
                    before.wf(),
                    t < lists.len(),
                    lists == before.retired_lists(),
                    row@ == lists[t as int],
                    i <= row@.len(),
                    memory.allocated() == before.allocated().remove_keys(listed_before(lists, t as int, i as int)),
                decreases row@.len() - i,
            {
                let p = row[i];
                assert(lists[t as int].contains(p));
                assert(!listed_before(lists, t as int, i as int).contains(p)) by {
                    assert(lists[t as int].no_duplicates());
                    if listed_in(lists.take(t as int), p) {
                        let u = choose|u: int| 0 <= u < lists.take(t as int).len() && #[trigger] lists.take(t as int)[u].contains(p);
                        assert(lists[u].contains(p));
                    }
                    if lists[t as int].take(i as int).contains(p) {
                        let j = choose|j: int| 0 <= j < i && lists[t as int].take(i as int)[j] == p;
                        assert(lists[t as int][j] == lists[t as int][i as int]);
                    }
                }
                memory.deallocate(p);
                proof {
                    assert(lists[t as int].take(i + 1) =~= lists[t as int].take(i as int).push(p));
                    let prefix = lists[t as int].take(i as int);
                    assert forall|q: usize| prefix.push(p).contains(q) <==> (prefix.contains(q) || q == p) by {
                        if prefix.push(p).contains(q) && q != p {
                            let j = choose|j: int| 0 <= j < prefix.push(p).len() && prefix.push(p)[j] == q;
                            assert(prefix[j] == q);
                        }
                        if prefix.contains(q) {
                            let j = choose|j: int| 0 <= j < prefix.len() && prefix[j] == q;
                            assert(prefix.push(p)[j] == q);
                        }
                        if q == p {
                            assert(prefix.push(p)[i as int] == q);
                        }
                    }
                    assert(listed_before(lists, t as int, i + 1) =~= listed_before(lists, t as int, i as int).insert(p));
                    assert(memory.allocated() =~= before.allocated().remove_keys(listed_before(lists, t as int, i + 1)));
                }
                i = i + 1;
            }
            proof {
                assert(lists[t as int].take(i as int) =~= lists[t as int]);
                assert(lists.take(t + 1) =~= lists.take(t as int).push(lists[t as int]));
                assert forall|p: usize| listed_before(lists, t + 1, 0).contains(p) <==> listed_before(lists, t as int, i as int).contains(p) by {
                    if listed_in(lists.take(t + 1), p) {
                        let u = choose|u: int| 0 <= u < lists.take(t + 1).len() && #[trigger] lists.take(t + 1)[u].contains(p);
                        if u < t {
                            assert(lists.take(t as int)[u].contains(p));
                        }
                    }
                    if listed_in(lists.take(t as int), p) {
                        let u = choose|u: int| 0 <= u < lists.take(t as int).len() && #[trigger] lists.take(t as int)[u].contains(p);
                        assert(lists.take(t + 1)[u].contains(p));
                    }
                    if lists[t as int].contains(p) {
                        assert(lists.take(t + 1)[t as int].contains(p));
                    }
                    if t + 1 < lists.len() {
                        assert(lists[t + 1].take(0) =~= Seq::<usize>::empty());
                    }
                }
                assert(listed_before(lists, t + 1, 0) =~= listed_before(lists, t as int, i as int));
            }
            t = t + 1;
        }
        proof {
            assert(lists.take(t as int) =~= lists);
            assert(listed_before(lists, t as int, 0) =~= Set::new(|p: usize| before.is_retired(p)));
        }
        memory
    }

    /// Allocates `value` in the registry's backend and returns its handle.
    pub fn allocate(&mut self, value: T) -> (pointer: usize)
        requires
            old(self).wf(),
        ensures
            final(self).wf(),
            pointer != 0,
            !old(self).allocated().contains_key(pointer),
            final(self).allocated() == old(self).allocated().insert(pointer, value),
            final(self).slots() == old(self).slots(),
            final(self).retired_lists() == old(self).retired_lists(),
            final(self).threads() == old(self).threads(),
            final(self).domains() == old(self).domains(),
            final(self).threshold() == old(self).threshold(),
    {
        let ghost before = *self;
        let pointer = self.memory.allocate(value);
        assert(self.retired_lists() == before.retired_lists());
        assert(self.slots() == before.slots());
        assert forall|t: int, p: usize|
            0 <= t < self.threads() && #[trigger] self.retired_lists()[t].contains(p) implies p != 0
                && self.allocated().contains_key(p) by {
            assert(before.retired_lists()[t].contains(p));
        }
        pointer
    }

    /// Whether `pointer` refers to a live allocation of the backend.
    pub fn is_allocated(&self, pointer: usize) -> (r: bool)
        ensures
            r == self.allocated().contains_key(pointer),
    {
        self.memory.is_allocated(pointer)
    }

    /// The pointer held in slot (`thread`, `domain`).
    pub fn slot(&self, thread: usize, domain: usize) -> (r: usize)
        requires
            self.wf(),
            thread < self.threads(),
            domain < self.domains(),
        ensures
            r == self.slots()[thread as int][domain as int],
    {
        let rows = self.hazardous.as_vec();
        assert(self.slots()[thread as int] == rows@[thread as int]@);
        rows[thread][domain]
    }

    /// `thread`'s retired list, oldest first.
    pub fn retired(&self, thread: usize) -> (r: &Vec<usize>)
        requires
            self.wf(),
            thread < self.threads(),
        ensures
            r@ == self.retired_lists()[thread as int],
    {
        &self.retired.as_vec()[thread]
    }

    /// The number of threads.
    pub fn thread_count(&self) -> (r: usize)
        ensures
            r == self.threads(),
    {
        self.hazardous.as_vec().len()
    }

    /// The number of slots per thread.
    pub fn domain_count(&self) -> (r: usize)
        ensures
            r == self.domains(),
    {
        self.domains
    }

    /// The retired-list length at which a sweep runs.
    pub fn sweep_threshold(&self) -> (r: usize)
        ensures
            r == self.threshold(),
    {
        self.threshold
    }

    /// A retirement frees only pointers that no slot holds at the moment of
    /// its sweep, and publishing or clearing a slot frees nothing.
    pub proof fn lemma_frees_only_unprotected(
        before: Self,
        thread: int,
        domain: int,
        pointer: usize,
        after_retire: Self,
        after_publish: Self,
        q: usize,
    )
        requires
            before.wf(),
            0 <= thread < before.threads(),
        ensures
            before.retire_step(thread, pointer, after_retire) && before.allocated().contains_key(q)
                && !after_retire.allocated().contains_key(q) ==> !before.is_hazardous(q),
            before.publish_step(thread, domain, pointer, after_publish) ==> after_publish.allocated()
                == before.allocated(),
    {
    }

    /// Retiring the pointer that brings a thread's list to the threshold,
    /// when no slot holds any pointer of the list, frees them all and empties
    /// the list; below the threshold the list only grows and nothing is freed.
    pub proof fn lemma_threshold_trigger(before: Self, thread: int, pointer: usize, after: Self)
        requires
            before.wf(),
            0 <= thread < before.threads(),
            before.retire_step(thread, pointer, after),
        ensures
            before.retired_lists()[thread].len() + 1 < before.threshold() ==> {
                &&& after.retired_lists()[thread] == before.retired_lists()[thread].push(pointer)
                &&& after.allocated() == before.allocated()
            },
            ({
                let grown = before.retired_lists()[thread].push(pointer);
                &&& grown.len() >= before.threshold()
                &&& forall|q: usize| #[trigger] grown.contains(q) ==> !before.is_hazardous(q)
            }) ==> {
                &&& after.retired_lists()[thread] == Seq::<usize>::empty()
                &&& forall|q: usize|
                    #[trigger] before.retired_lists()[thread].push(pointer).contains(q)
                        ==> !after.allocated().contains_key(q)
            },
    {
        let grown = before.retired_lists()[thread].push(pointer);
        let pred = protected_by(before.slots());
        if grown.len() >= before.threshold() && forall|q: usize| #[trigger] grown.contains(q) ==> !before.is_hazardous(q) {
            if grown.filter(pred).len() > 0 {
                let q = grown.filter(pred)[0];
                grown.lemma_filter_pred(pred, 0);
                assert(grown.filter(pred).contains(q));
                grown.lemma_filter_contains_rev(pred, q);
            }
            assert(after.retired_lists()[thread] =~= Seq::<usize>::empty());
        }
    }

    /// Retiring for one thread leaves every other thread's list as it was,
    /// and writing one thread's slot leaves every other thread's row as it
    /// was; what a retirement keeps depends on its own thread's list and the
    /// slots alone.
    pub proof fn lemma_partition_isolation(
        before: Self,
        other: Self,
        thread: int,
        domain: int,
        pointer: usize,
        after_retire: Self,
        after_other: Self,
        after_publish: Self,
        u: int,
    )
        requires
            before.wf(),
            0 <= thread < before.threads(),
            0 <= u < before.threads(),
            u != thread,
            other.wf(),
            other.threads() == before.threads(),
        ensures
            before.retire_step(thread, pointer, after_retire) ==> after_retire.retired_lists()[u]
                == before.retired_lists()[u] && after_retire.slots() == before.slots(),
            before.publish_step(thread, domain, pointer, after_publish) ==> after_publish.slots()[u]
                == before.slots()[u] && after_publish.retired_lists() == before.retired_lists(),
            before.retire_step(thread, pointer, after_retire) && other.retire_step(thread, pointer, after_other)
                && other.slots() == before.slots() && other.threshold() == before.threshold()
                && other.retired_lists()[thread] == before.retired_lists()[thread]
                ==> after_other.retired_lists()[thread] == after_retire.retired_lists()[thread],
    {
    }

    /// Clearing a slot twice in a row leaves it null after each call, and the
    /// second call changes nothing.
    pub proof fn lemma_clear_idempotent(s0: Self, thread: int, domain: int, s1: Self, s2: Self)
        requires
            s0.wf(),
            0 <= thread < s0.threads(),
            0 <= domain < s0.domains(),
            s0.publish_step(thread, domain, 0, s1),
            s1.publish_step(thread, domain, 0, s2),
        ensures
            s1.slots()[thread][domain] == 0,
            s2.slots()[thread][domain] == 0,
            s2.slots() == s1.slots(),
            s2.retired_lists() == s1.retired_lists(),
            s2.backend() == s1.backend(),
    {
        assert(s0.slots()[thread].len() == s0.domains());
        assert(s1.slots()[thread].update(domain, 0) =~= s1.slots()[thread]);
        assert(s2.slots() =~= s1.slots());
    }

    /// Teardown frees every pointer still waiting in a retired list exactly
    /// once, protected or not: each was live until then and is gone after;
    /// every other allocation is left alone.
    pub proof fn lemma_teardown_frees_every_retired(before: Self, memory: M, p: usize)
        requires
            before.wf(),
            before.teardown_result(memory),
        ensures
            before.is_retired(p) ==> before.allocated().contains_key(p) && !memory.allocated().contains_key(p),
            !before.is_retired(p) ==> memory.allocated().contains_key(p) == before.allocated().contains_key(p),
    {
        if before.is_retired(p) {
            let t = choose|t: int| 0 <= t < before.retired_lists().len() && #[trigger] before.retired_lists()[t].contains(p);
            assert(before.retired_lists().len() == before.threads());
        }
    }

    /// A retirement accounts for every pointer it takes, `pointer` and those
    /// already listed: each one either stays listed, and live, or is freed by
    /// that very step; the step frees nothing else and lists nothing new.
    /// Since teardown frees every pointer still listed, each pointer ever
    /// retired is freed exactly once over the registry's life.
    pub proof fn lemma_retire_accounts_for_every_pointer(
        before: Self,
        thread: int,
        pointer: usize,
        after: Self,
        q: usize,
    )
        requires
            before.wf(),
            after.wf(),
            0 <= thread < before.threads(),
            pointer != 0,
            before.allocated().contains_key(pointer),
            !before.is_retired(pointer),
            before.retire_step(thread, pointer, after),
        ensures
            (q == pointer || before.is_retired(q)) ==> before.allocated().contains_key(q)
                && (after.is_retired(q) <==> after.allocated().contains_key(q)),
            (before.allocated().contains_key(q) && !after.allocated().contains_key(q)) <==> ((q
                == pointer || before.is_retired(q)) && !after.is_retired(q)),
            after.is_retired(q) ==> q == pointer || before.is_retired(q),
    {
        let lists = before.retired_lists();
        let grown = lists[thread].push(pointer);
        let pred = protected_by(before.slots());
        let kept = after.retired_lists()[thread];
        assert(grown.contains(q) <==> (lists[thread].contains(q) || q == pointer)) by {
            if grown.contains(q) && q != pointer {
                let j = choose|j: int| 0 <= j < grown.len() && grown[j] == q;
                assert(lists[thread][j] == q);
            }
            if lists[thread].contains(q) {
                let j = choose|j: int| 0 <= j < lists[thread].len() && lists[thread][j] == q;
                assert(grown[j] == q);
            }
            if q == pointer {
                assert(grown[grown.len() - 1] == q);
            }
        }
        assert(kept.contains(q) ==> grown.contains(q)) by {
            if kept.contains(q) && grown.len() >= before.threshold() {
                grown.lemma_filter_contains_rev(pred, q);
            }
        }
        assert(grown.contains(q) && !kept.contains(q) ==> grown.len() >= before.threshold() && !before.is_hazardous(q)) by {
            if grown.contains(q) && !kept.contains(q) {
                if grown.len() < before.threshold() {
                    assert(kept == grown);
                } else if before.is_hazardous(q) {
                    let j = choose|j: int| 0 <= j < grown.len() && grown[j] == q;
                    grown.lemma_filter_contains(pred, j);
                }
            }
        }
        assert(after.is_retired(q) <==> (kept.contains(q) || exists|u: int|
            0 <= u < before.threads() && u != thread && #[trigger] lists[u].contains(q))) by {
            if after.is_retired(q) {
                let u = choose|u: int| 0 <= u < after.retired_lists().len() && #[trigger] after.retired_lists()[u].contains(q);
                if u != thread {
                    assert(lists[u].contains(q));
                }
            }
            if exists|u: int| 0 <= u < before.threads() && u != thread && #[trigger] lists[u].contains(q) {
                let u = choose|u: int| 0 <= u < before.threads() && u != thread && #[trigger] lists[u].contains(q);
                assert(after.retired_lists()[u].contains(q));
            }
            if kept.contains(q) {
                assert(after.retired_lists()[thread].contains(q));
            }
        }
        assert(before.is_retired(q) <==> (lists[thread].contains(q) || exists|u: int|
            0 <= u < before.threads() && u != thread && #[trigger] lists[u].contains(q))) by {
            if before.is_retired(q) {
                let u = choose|u: int| 0 <= u < lists.len() && #[trigger] lists[u].contains(q);
            }
            if lists[thread].contains(q) {
                assert(listed_in(lists, q));
            }
        }
        if exists|u: int| 0 <= u < before.threads() && u != thread && #[trigger] lists[u].contains(q) {
            let u = choose|u: int| 0 <= u < before.threads() && u != thread && #[trigger] lists[u].contains(q);
            assert(!lists[thread].contains(q));
            assert(q != pointer) by {
                if q == pointer {
                    assert(listed_in(lists, q));
                }
            }
            assert(!grown.contains(q));
        }
        if before.is_retired(q) {
            let u = choose|u: int| 0 <= u < lists.len() && #[trigger] lists[u].contains(q);
        }
    }
}

} // verus!
