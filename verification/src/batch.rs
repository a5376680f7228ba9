//! The wakes that an operation leaves to be made.

use vstd::prelude::*;

verus! {

/// Tasks whose executors are to be woken, in order, once the scheduler is no
/// longer locked. Most batches hold one task at most, and allocate nothing.
#[derive(Debug)]
pub struct WakeBatch {
    first: Option<u64>,
    rest: Vec<u64>,
}

impl View for WakeBatch {
    type V = Seq<u64>;

    closed spec fn view(&self) -> Seq<u64> {
        match self.first {
            Some(id) => seq![id] + self.rest@,
            None => Seq::empty(),
        }
    }
}

impl WakeBatch {
    /// Without a first task there are no others.
    #[verifier::type_invariant]
    closed spec fn filled_in_order(self) -> bool {
        self.first is None ==> self.rest@.len() == 0
    }

    /// Makes an empty batch.
    pub fn new() -> (batch: WakeBatch)
        ensures
            batch@ == Seq::<u64>::empty(),
    {
        WakeBatch { first: None, rest: Vec::new() }
    }

    /// Adds a task at the end.
    pub fn push(&mut self, id: u64)
        ensures
            final(self)@ == old(self)@.push(id),
    {
        proof {
            use_type_invariant(&*self);
        }
        match self.first {
            None => {
                self.first = Some(id);
                assert(self@ =~= old(self)@.push(id));
            },
            Some(first) => {
                let mut rest = Vec::new();
                std::mem::swap(&mut rest, &mut self.rest);
                rest.push(id);
                self.rest = rest;
                assert(self@ =~= old(self)@.push(id));
            },
        }
    }

    /// Returns the tasks in the order in which they are to be woken.
    pub fn into_tasks(self) -> (tasks: Vec<u64>)
        ensures
            tasks@ == self@,
    {
        proof {
            use_type_invariant(&self);
        }
        let mut tasks = Vec::new();
        if let Some(id) = self.first {
            tasks.push(id);
        }
        let mut rest = self.rest;
        tasks.append(&mut rest);
        assert(tasks@ =~= self@);
        tasks
    }
}

} // verus!
