//! A bounded window of loads that run concurrently and are released in the
//! order in which they were submitted.
use vstd::prelude::*;

verus! {

/// What the front of the window holds when it is asked for the next result.
pub enum Released<T> {
    /// The oldest submitted load finished with a result, which leaves the window.
    Loaded(T),
    /// The oldest submitted load finished with nothing; it leaves the window.
    Skipped,
    /// The oldest submitted load is still running, or nothing is in the window.
    Pending,
}

/// Up to `cap` loads, each tagged with the ticket handed out at submission.
/// Loads may finish in any order; results leave in ticket order.
pub struct LoadWindow<T> {
    cap: usize,
    /// Ticket of the oldest load still held.
    first: usize,
    /// One slot per held load, oldest first: `None` while it runs, then its result.
    slots: Vec<Option<Option<T>>>,
    /// The result given for each ticket that has finished.
    completed: Ghost<Map<int, Option<T>>>,
    /// The results that have left the window, in the order they left.
    released: Ghost<Seq<Option<T>>>,
}

/// The results present in `s`, in order.
pub open spec fn present<T>(s: Seq<Option<T>>) -> Seq<T>
    decreases s.len(),
{
    if s.len() == 0 {
        Seq::empty()
    } else {
        let rest = present(s.drop_last());
        match s.last() {
            Some(v) => rest.push(v),
            None => rest,
        }
    }
}

impl<T> LoadWindow<T> {
    pub closed spec fn capacity(&self) -> nat {
        self.cap as nat
    }

    /// Ticket of the oldest load still held (equal to the number released).
    pub closed spec fn first_ticket(&self) -> nat {
        self.first as nat
    }

    /// The held loads, oldest first: `None` while running, else the result.
    pub closed spec fn held(&self) -> Seq<Option<Option<T>>> {
        self.slots@
    }

    pub closed spec fn completed(&self) -> Map<int, Option<T>> {
        self.completed@
    }

    pub closed spec fn released(&self) -> Seq<Option<T>> {
        self.released@
    }

    /// The ticket the next submission receives.
    pub open spec fn next_ticket(&self) -> nat {
        self.first_ticket() + self.held().len()
    }

    pub closed spec fn wf(&self) -> bool {
        &&& 0 < self.cap
        &&& self.slots@.len() <= self.cap
        &&& self.first + self.slots@.len() <= usize::MAX
        &&& self.released@.len() == self.first
        &&& forall|k: int| self.completed@.contains_key(k) ==> 0 <= k < self.first + self.slots@.len()
        &&& forall|k: int| 0 <= k < self.first ==> #[trigger] self.completed@.contains_key(k)
        &&& forall|k: int| 0 <= k < self.first ==> #[trigger] self.released@[k] == self.completed@[k]
        &&& forall|i: int| 0 <= i < self.slots@.len() ==>
            (#[trigger] self.slots@[i] is Some) == self.completed@.contains_key(self.first + i)
        &&& forall|i: int| 0 <= i < self.slots@.len() && #[trigger] self.slots@[i] is Some
            ==> self.slots@[i]->Some_0 == self.completed@[self.first + i]
    }

    /// An empty window that holds at most `cap` loads.
    pub fn new(cap: usize) -> (r: Self)
        requires
            cap > 0,
        ensures
            r.wf(),
            r.capacity() == cap,
            r.first_ticket() == 0,
            r.held().len() == 0,
            r.completed() == Map::<int, Option<T>>::empty(),
            r.released().len() == 0,
    {
        LoadWindow {
            cap,
            first: 0,
            slots: Vec::new(),
            completed: Ghost(Map::empty()),
            released: Ghost(Seq::empty()),
        }
    }

    /// Whether another load may be submitted now.
    pub fn has_room(&self) -> (r: bool)
        requires
            self.wf(),
        ensures
            r == (self.held().len() < self.capacity() && self.next_ticket() < usize::MAX),
    {
        self.slots.len() < self.cap && self.slots.len() < usize::MAX - self.first
    }

    /// Registers a new running load and returns its ticket.
    pub fn submit(&mut self) -> (ticket: usize)
        requires
            old(self).wf(),
            old(self).held().len() < old(self).capacity(),
            old(self).next_ticket() < usize::MAX,
        ensures
            final(self).wf(),
            ticket == old(self).next_ticket(),
            final(self).capacity() == old(self).capacity(),
            final(self).first_ticket() == old(self).first_ticket(),
            final(self).held() == old(self).held().push(None),
            final(self).completed() == old(self).completed(),
            final(self).released() == old(self).released(),
    {
        let ticket = self.first + self.slots.len();
        self.slots.push(None);
        ticket
    }

    /// Records the result of the load with ticket `ticket`.
    pub fn complete(&mut self, ticket: usize, result: Option<T>)
        requires
            old(self).wf(),
            old(self).first_ticket() <= ticket < old(self).next_ticket(),
            old(self).held()[ticket - old(self).first_ticket()] is None,
        ensures
            final(self).wf(),
            final(self).capacity() == old(self).capacity(),
            final(self).first_ticket() == old(self).first_ticket(),
            final(self).held() == old(self).held().update(
                ticket - old(self).first_ticket(),
                Some(result),
            ),
            final(self).completed() == old(self).completed().insert(ticket as int, result),
            final(self).released() == old(self).released(),
    {
        let i = ticket - self.first;
        proof {
            self.completed@ = self.completed@.insert(ticket as int, result);
        }
        self.slots.set(i, Some(result));
        assert forall|k: int| 0 <= k < self.first implies #[trigger] self.released@[k]
            == self.completed@[k] by {
            assert(k != ticket);
        }
    }

    /// Takes the result of the oldest load out of the window once it has finished.
    pub fn release(&mut self) -> (r: Released<T>)
        requires
            old(self).wf(),
        ensures
            final(self).wf(),
            final(self).capacity() == old(self).capacity(),
            final(self).completed() == old(self).completed(),
            old(self).held().len() > 0 && old(self).held()[0] is Some ==> {
                &&& final(self).first_ticket() == old(self).first_ticket() + 1
                &&& final(self).held() == old(self).held().drop_first()
                &&& final(self).released() == old(self).released().push(old(self).held()[0]->Some_0)
                &&& match old(self).held()[0]->Some_0 {
                    Some(v) => r == Released::Loaded(v),
                    None => r is Skipped,
                }
            },
            !(old(self).held().len() > 0 && old(self).held()[0] is Some) ==> {
                &&& r is Pending
                &&& *final(self) == *old(self)
            },
    {
        if self.slots.len() == 0 {
            return Released::Pending;
        }
        if self.slots[0].is_none() {
            return Released::Pending;
        }
        let front = self.slots.remove(0);
        proof {
            self.released@ = self.released@.push(front->Some_0);
        }
        self.first = self.first + 1;
        assert forall|k: int| 0 <= k < self.first implies #[trigger] self.released@[k]
            == self.completed@[k] by {
            if k == self.first - 1 {
                assert(old(self).slots@[0] is Some);
            }
        }
        assert forall|i: int| 0 <= i < self.slots@.len() implies
            (#[trigger] self.slots@[i] is Some) == self.completed@.contains_key(self.first + i) by {
            assert(self.slots@[i] == old(self).slots@[i + 1]);
        }
        match front {
            Some(Some(v)) => Released::Loaded(v),
            _ => Released::Skipped,
        }
    }
}

/// Results leave the window in ticket order: the `k`-th result released is
/// the one recorded for ticket `k`, whatever order the loads finished in.
pub proof fn lemma_released_in_ticket_order<T>(w: LoadWindow<T>)
    requires
        w.wf(),
    ensures
        w.released() == Seq::new(w.first_ticket(), |k: int| w.completed()[k]),
{
    assert(w.released() =~= Seq::new(w.first_ticket(), |k: int| w.completed()[k]));
}

/// The capacity does not change what is released: two windows, of any
/// capacities, that have released the same number of tickets with the same
/// result for each ticket, have released the same loaded values in the same order.
pub proof fn lemma_order_independent_of_capacity<T>(a: LoadWindow<T>, b: LoadWindow<T>)
    requires
        a.wf(),
        b.wf(),
        a.first_ticket() == b.first_ticket(),
        forall|k: int| 0 <= k < a.first_ticket() ==> a.completed()[k] == b.completed()[k],
    ensures
        a.released() == b.released(),
        present(a.released()) == present(b.released()),
{
    lemma_released_in_ticket_order(a);
    lemma_released_in_ticket_order(b);
    assert(a.released() =~= b.released());
}

} // verus!
