//! Permits: how many workers of an endpoint may start, and when.

use vstd::prelude::*;

verus! {

/// Hands out the permits of an endpoint, all at once or step by step.
///
/// Steps may be fractions of a permit. They are added up outside; what is handed over here is
/// the whole part of what has accumulated.
pub struct ConcurrencyController {
    total_permits: usize,
    stepped: bool,
    started: bool,
    permits_added: usize,
}

/// What a controller says.
pub struct ControllerView {
    /// How many permits there are in all.
    pub total_permits: usize,
    /// They are handed out step by step.
    pub stepped: bool,
    /// The first of them were handed out.
    pub started: bool,
    /// How many were handed out.
    pub permits_added: int,
}

/// Permits to hand out: those that no step pays for, and those that are taken off the steps.
#[derive(Clone, Copy, Debug)]
pub struct Grant {
    pub at_once: usize,
    pub from_steps: usize,
}

impl View for ConcurrencyController {
    type V = ControllerView;

    closed spec fn view(&self) -> ControllerView {
        ControllerView {
            total_permits: self.total_permits,
            stepped: self.stepped,
            started: self.started,
            permits_added: self.permits_added as int,
        }
    }
}

impl ControllerView {
    /// The permits that no step pays for: all of them where there are no steps, and a single
    /// one.
    pub open spec fn at_once(self) -> int {
        if self.started {
            0
        } else if !self.stepped || self.total_permits == 1 {
            self.total_permits as int
        } else {
            0
        }
    }

    /// The permits that `whole` accumulated steps pay for: the first time as many as there are,
    /// and later no more than are left.
    pub open spec fn from_steps(self, whole: int) -> int {
        if !self.stepped {
            0
        } else if !self.started {
            whole
        } else if self.permits_added >= self.total_permits {
            0
        } else if whole < self.total_permits - self.permits_added {
            whole
        } else {
            self.total_permits - self.permits_added
        }
    }

    /// The controller after it handed out permits.
    pub open spec fn distributed(self, whole: int) -> ControllerView {
        ControllerView {
            started: true,
            permits_added: self.permits_added + self.at_once() + self.from_steps(whole),
            ..self
        }
    }
}

impl ConcurrencyController {
    /// Nothing is handed out before the start.
    #[verifier::type_invariant]
    spec fn inv(self) -> bool {
        !self.started ==> self.permits_added == 0
    }

    /// A controller that has handed out nothing.
    pub fn new(total_permits: usize, stepped: bool) -> (r: Self)
        ensures
            r@ == (ControllerView { total_permits, stepped, started: false, permits_added: 0 }),
    {
        ConcurrencyController { total_permits, stepped, started: false, permits_added: 0 }
    }

    /// Hands out permits, for `whole` accumulated steps.
    pub fn distribute_permits(&mut self, whole: usize) -> (r: Grant)
        requires
            old(self)@.at_once() + old(self)@.from_steps(whole as int) <= usize::MAX,
        ensures
            r.at_once == old(self)@.at_once(),
            r.from_steps == old(self)@.from_steps(whole as int),
            final(self)@ == old(self)@.distributed(whole as int),
    {
        proof {
            use_type_invariant(&*self);
        }
        let mut at_once: usize = 0;
        let mut from_steps: usize = 0;
        if !self.started {
            if self.stepped {
                if self.total_permits == 1 {
                    at_once = 1;
                }
                from_steps = whole;
            } else {
                at_once = self.total_permits;
            }
        } else if self.stepped && self.permits_added < self.total_permits {
            let left: usize = self.total_permits - self.permits_added;
            from_steps = if whole < left {
                whole
            } else {
                left
            };
        }
        self.started = true;
        self.permits_added = self.permits_added + at_once + from_steps;
        Grant { at_once, from_steps }
    }

    /// Tells whether everything was handed out.
    pub fn is_done(&self) -> (r: bool)
        ensures
            r == (self@.started && (!self@.stepped || self@.permits_added >= self@.total_permits)),
    {
        self.started && (!self.stepped || self.permits_added >= self.total_permits)
    }
}

/// A controller after it was called for each of a sequence of accumulated steps.
pub open spec fn distributed_all(c: ControllerView, wholes: Seq<nat>) -> ControllerView
    decreases wholes.len(),
{
    if wholes.len() == 0 {
        c
    } else {
        distributed_all(c, wholes.drop_last()).distributed(wholes.last() as int)
    }
}

/// The sum of steps.
pub open spec fn step_sum(wholes: Seq<nat>) -> int
    decreases wholes.len(),
{
    if wholes.len() == 0 {
        0
    } else {
        step_sum(wholes.drop_last()) + wholes.last()
    }
}

/// A controller that has handed out nothing.
pub open spec fn fresh_controller(total_permits: usize, stepped: bool) -> ControllerView {
    ControllerView { total_permits, stepped, started: false, permits_added: 0 }
}

/// Without steps, the first call hands out every permit, and no later call hands out more.
pub proof fn law_unstepped_at_once(total_permits: usize, wholes: Seq<nat>)
    requires
        wholes.len() > 0,
    ensures
        distributed_all(fresh_controller(total_permits, false), wholes).permits_added
            == total_permits,
        distributed_all(fresh_controller(total_permits, false), wholes).started,
        !distributed_all(fresh_controller(total_permits, false), wholes).stepped,
        distributed_all(fresh_controller(total_permits, false), wholes).total_permits
            == total_permits,
    decreases wholes.len(),
{
    let fewer = wholes.drop_last();
    if fewer.len() > 0 {
        law_unstepped_at_once(total_permits, fewer);
    } else {
        assert(distributed_all(fresh_controller(total_permits, false), fewer) == fresh_controller(
            total_permits,
            false,
        ));
    }
}

/// With steps, as many permits are out as the steps sum up to, and never more than there are:
/// unless the first step alone goes beyond them, and unless there is but a single permit, which
/// is out at once.
pub proof fn law_steps_reach_the_total(total_permits: usize, wholes: Seq<nat>)
    requires
        wholes.len() > 0,
        wholes[0] <= total_permits,
        total_permits != 1,
    ensures
        ({
            let c = distributed_all(fresh_controller(total_permits, true), wholes);
            let sum = step_sum(wholes);
            &&& c.permits_added == (if sum < total_permits {
                sum
            } else {
                total_permits as int
            })
            &&& c.started
            &&& c.stepped
            &&& c.total_permits == total_permits
        }),
    decreases wholes.len(),
{
    let fewer = wholes.drop_last();
    if fewer.len() > 0 {
        law_steps_reach_the_total(total_permits, fewer);
    } else {
        assert(distributed_all(fresh_controller(total_permits, true), fewer) == fresh_controller(
            total_permits,
            true,
        ));
        assert(wholes.last() == wholes[0]);
        assert(step_sum(fewer) == 0);
    }
}

/// A single permit is out after the first call, whatever the steps.
pub proof fn law_single_permit_at_once(stepped: bool, whole: nat)
    ensures
        fresh_controller(1, stepped).distributed(whole as int).permits_added >= 1,
        fresh_controller(1, stepped).at_once() == 1,
{
}

proof fn lemma_sum_grows(wholes: Seq<nat>)
    requires
        forall|i: int| 0 <= i < wholes.len() ==> #[trigger] wholes[i] >= 1,
    ensures
        step_sum(wholes) >= wholes.len(),
    decreases wholes.len(),
{
    if wholes.len() > 0 {
        let fewer = wholes.drop_last();
        assert forall|i: int| 0 <= i < fewer.len() implies #[trigger] fewer[i] >= 1 by {
            assert(wholes[i] >= 1);
        }
        lemma_sum_grows(fewer);
        assert(wholes[wholes.len() - 1] >= 1);
    }
}

/// Handing out comes to an end: where every step is worth a permit, all permits are out after as
/// many steps as there are permits.
pub proof fn law_handing_out_ends(total_permits: usize, wholes: Seq<nat>)
    requires
        total_permits > 1,
        wholes.len() >= total_permits,
        wholes[0] <= total_permits,
        forall|i: int| 0 <= i < wholes.len() ==> #[trigger] wholes[i] >= 1,
    ensures
        distributed_all(fresh_controller(total_permits, true), wholes).permits_added
            == total_permits,
{
    lemma_sum_grows(wholes);
    law_steps_reach_the_total(total_permits, wholes);
}

/// What a call hands out, whatever was handed out before. The first call hands out everything
/// where there are no steps; with steps it hands out just what they pay for, even beyond what
/// there is, and a single permit on top of it where there is but one. Later calls hand out what
/// the steps pay for, but no more than is left, and nothing where all is out or there are no steps.
pub proof fn law_call_hands_out(c: ControllerView, whole: nat)
    ensures
        ({
            let after = c.distributed(whole as int);
            let handed = after.permits_added - c.permits_added;
            &&& after.started
            &&& after.stepped == c.stepped
            &&& after.total_permits == c.total_permits
            &&& c.at_once() + c.from_steps(whole as int) == handed
            &&& !c.started && !c.stepped ==> c.at_once() == c.total_permits && handed
                == c.total_permits
            &&& !c.started && c.stepped && c.total_permits != 1 ==> c.at_once() == 0 && handed
                == whole
            &&& !c.started && c.stepped && c.total_permits == 1 ==> c.at_once() == 1 && handed
                == whole + 1
            &&& c.started ==> c.at_once() == 0
            &&& c.started && !c.stepped ==> handed == 0
            &&& c.started && c.stepped && c.permits_added >= c.total_permits ==> handed == 0
            &&& c.started && c.stepped && c.permits_added + whole < c.total_permits ==> handed
                == whole
            &&& c.started && c.stepped && c.permits_added < c.total_permits && c.permits_added
                + whole >= c.total_permits ==> after.permits_added == c.total_permits
        }),
{
}

} // verus!
