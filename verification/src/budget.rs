//! The budget that every strategy runs on: a flag that a timer or an
//! interrupt may raise at any moment, and a count of the polls that are left.
//! A strategy polls before each step and stops when the budget is spent. A
//! budget that a poll has found spent stays spent.

use std::sync::atomic::AtomicBool;
use std::sync::Arc;
use vstd::prelude::*;

verus! {

/// The budget of one strategy run.
pub struct Budget {
    flag: Arc<AtomicBool>,
    polls: u64,
    found_spent: bool,
}

/// The number of polls that found the budget unspent between two of its states.
pub open spec fn polls_used(before: &Budget, after: &Budget) -> nat {
    (before.remaining() - after.remaining()) as nat
}

impl Budget {
    /// The number of polls that can still find the budget unspent.
    pub closed spec fn remaining(&self) -> nat {
        self.polls as nat
    }

    /// A poll has found the budget spent.
    pub closed spec fn was_spent(&self) -> bool {
        self.found_spent
    }

    /// A budget that is spent once `flag` is raised, or after `polls` polls.
    pub fn new(flag: Arc<AtomicBool>, polls: u64) -> (budget: Budget)
        ensures
            budget.remaining() == polls,
            !budget.was_spent(),
    {
        Budget { flag, polls, found_spent: false }
    }

    /// A budget that is spent once `flag` is raised, or after as many polls
    /// as the machine can count.
    pub fn until_raised(flag: Arc<AtomicBool>) -> (budget: Budget)
        ensures
            budget.remaining() == u64::MAX,
            !budget.was_spent(),
    {
        Budget { flag, polls: u64::MAX, found_spent: false }
    }

    /// Polls the budget: whether it is spent. A poll that finds it unspent
    /// uses up one of the polls that are left.
    pub fn spent(&mut self) -> (stop: bool)
        ensures
            old(self).remaining() == 0 ==> stop,
            old(self).was_spent() ==> stop,
            stop == final(self).was_spent(),
            stop ==> final(self).remaining() == old(self).remaining(),
            !stop ==> final(self).remaining() + 1 == old(self).remaining(),
    {
        if self.found_spent {
            return true;
        }
        if self.polls == 0 {
            self.found_spent = true;
            return true;
        }
        if self.flag.load(std::sync::atomic::Ordering::SeqCst) {
            self.found_spent = true;
            return true;
        }
        self.polls = self.polls - 1;
        false
    }
}

} // verus!
