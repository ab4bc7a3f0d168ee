//! The probe engine's decision core: a per-port state machine that consumes
//! one connect-attempt outcome at a time, within a bounded attempt budget,
//! and fixes the port's terminal status.
//!
//! The host environment performs each attempt (racing a connect call against
//! a timer) and reports only its outcome; every decision — whether to try
//! again and which status the port ends with — is made here.

use vstd::prelude::*;
use crate::scan::Status;

verus! {

/// The outcome of one connect attempt: the connection was established, the
/// connection completed with an error (refused, unreachable) before the
/// timer fired, or the timer fired first and the attempt was abandoned.
#[derive(PartialEq, Eq, Structural, Clone, Copy, Debug)]
pub enum AttemptOutcome {
    Connected,
    Refused,
    TimedOut,
}

/// The status after a sequence of attempt outcomes: `Open` as soon as any
/// attempt connected (success is final); otherwise `TimedOut` if any attempt
/// ran out of time (a later refusal does not reset it); otherwise `Closed`.
pub open spec fn status_after(os: Seq<AttemptOutcome>) -> Status
    decreases os.len(),
{
    if os.len() == 0 {
        Status::Closed
    } else {
        let prev = status_after(os.drop_last());
        if prev is Open {
            Status::Open
        } else {
            match os.last() {
                AttemptOutcome::Connected => Status::Open,
                AttemptOutcome::TimedOut => Status::TimedOut,
                AttemptOutcome::Refused => prev,
            }
        }
    }
}

/// A port is open after a run exactly when some attempt connected.
pub proof fn lemma_open_iff_connected(os: Seq<AttemptOutcome>)
    ensures
        status_after(os) is Open <==> os.contains(AttemptOutcome::Connected),
    decreases os.len(),
{
    if os.len() == 0 {
    } else {
        lemma_open_iff_connected(os.drop_last());
        if os.last() == AttemptOutcome::Connected {
            assert(os[os.len() - 1] == AttemptOutcome::Connected);
        }
        if status_after(os) is Open {
            if status_after(os.drop_last()) is Open {
                let j = choose|j: int|
                    0 <= j < os.drop_last().len() && #[trigger] os.drop_last()[j]
                        == AttemptOutcome::Connected;
                assert(os[j] == AttemptOutcome::Connected);
            }
        }
        if os.contains(AttemptOutcome::Connected) && !(os.last()
            == AttemptOutcome::Connected) {
            let j = choose|j: int|
                0 <= j < os.len() && #[trigger] os[j] == AttemptOutcome::Connected;
            assert(os.drop_last()[j] == AttemptOutcome::Connected);
        }
    }
}

/// A run whose attempts all timed out ends `TimedOut`.
pub proof fn lemma_all_timed_out(os: Seq<AttemptOutcome>)
    requires
        os.len() > 0,
        forall|i: int| 0 <= i < os.len() ==> os[i] is TimedOut,
    ensures
        status_after(os) is TimedOut,
    decreases os.len(),
{
    if os.len() > 1 {
        lemma_all_timed_out(os.drop_last());
    }
    lemma_open_iff_connected(os.drop_last());
    if os.drop_last().contains(AttemptOutcome::Connected) {
        let j = choose|j: int|
            0 <= j < os.drop_last().len() && #[trigger] os.drop_last()[j]
                == AttemptOutcome::Connected;
        assert(os[j] is TimedOut);
    }
}

/// A run whose attempts all completed with a refusal ends `Closed`.
pub proof fn lemma_all_refused(os: Seq<AttemptOutcome>)
    requires
        forall|i: int| 0 <= i < os.len() ==> os[i] is Refused,
    ensures
        status_after(os) is Closed,
    decreases os.len(),
{
    if os.len() > 0 {
        lemma_all_refused(os.drop_last());
    }
}

/// The terminal status is fully determined by which outcomes occurred:
/// `Open` exactly when some attempt connected — success wins over any
/// earlier timeout — `TimedOut` exactly when none connected and some attempt
/// timed out, and `Closed` exactly when every attempt was refused (or there
/// was none).
pub proof fn lemma_status_characterization(os: Seq<AttemptOutcome>)
    ensures
        status_after(os) is Open <==> os.contains(AttemptOutcome::Connected),
        status_after(os) is TimedOut <==> (!os.contains(AttemptOutcome::Connected)
            && os.contains(AttemptOutcome::TimedOut)),
        status_after(os) is Closed <==> (!os.contains(AttemptOutcome::Connected)
            && !os.contains(AttemptOutcome::TimedOut)),
    decreases os.len(),
{
    lemma_open_iff_connected(os);
    if os.len() > 0 {
        lemma_status_characterization(os.drop_last());
        lemma_open_iff_connected(os.drop_last());
        assert forall|o: AttemptOutcome| os.drop_last().contains(o) implies os.contains(o) by {
            let j = choose|j: int|
                0 <= j < os.drop_last().len() && #[trigger] os.drop_last()[j] == o;
            assert(os[j] == o);
        }
        if os.contains(AttemptOutcome::TimedOut) && !(os.last() == AttemptOutcome::TimedOut) {
            let j = choose|j: int|
                0 <= j < os.len() && #[trigger] os[j] == AttemptOutcome::TimedOut;
            assert(os.drop_last()[j] == AttemptOutcome::TimedOut);
        }
        if os.contains(AttemptOutcome::Connected) && !(os.last() == AttemptOutcome::Connected) {
            let j = choose|j: int|
                0 <= j < os.len() && #[trigger] os[j] == AttemptOutcome::Connected;
            assert(os.drop_last()[j] == AttemptOutcome::Connected);
        }
        if os.last() == AttemptOutcome::TimedOut {
            assert(os[os.len() - 1] == AttemptOutcome::TimedOut);
        }
        if os.last() == AttemptOutcome::Connected {
            assert(os[os.len() - 1] == AttemptOutcome::Connected);
        }
    }
}

/// The retry core of one probe. It is fed the outcome of each attempt the
/// environment makes; it stops asking for attempts as soon as one connects,
/// or when the attempt budget (`retries`, at least one) is spent.
pub struct ProbeMachine {
    /// The attempt budget: the maximum number of attempts, at least 1.
    pub retries: usize,
    /// How many attempts have been consumed.
    pub attempts: usize,
    /// The status so far: `status_after` the outcomes consumed.
    pub stat: Status,
    /// The outcomes consumed so far.
    pub history: Ghost<Seq<AttemptOutcome>>,
}

impl ProbeMachine {
    /// The machine's invariant: the attempt count matches the history and
    /// stays within the budget, the status is the one the history decides,
    /// and the machine only ever stopped early on success.
    pub open spec fn wf(&self) -> bool {
        &&& self.retries >= 1
        &&& self.attempts == self.history@.len()
        &&& self.attempts <= self.retries
        &&& self.stat == status_after(self.history@)
    }

    /// The machine is done: an attempt connected, or the budget is spent.
    pub open spec fn spec_finished(&self) -> bool {
        self.stat is Open || self.attempts == self.retries
    }

    /// A fresh machine for a budget of `retries` attempts. A budget of zero
    /// still means one attempt, never zero.
    pub fn new(retries: usize) -> (r: ProbeMachine)
        ensures
            r.wf(),
            r.retries == if retries >= 1 { retries as int } else { 1int },
            r.attempts == 0,
            r.stat is Closed,
            r.history@ == Seq::<AttemptOutcome>::empty(),
    {
        let budget: usize = if retries >= 1 {
            retries
        } else {
            1
        };
        let r = ProbeMachine {
            retries: budget,
            attempts: 0,
            stat: Status::Closed,
            history: Ghost(Seq::empty()),
        };
        proof {
            assert(status_after(r.history@) is Closed);
        }
        r
    }

    /// Whether the environment should make another connect attempt.
    pub fn wants_attempt(&self) -> (r: bool)
        requires
            self.wf(),
        ensures
            r == !self.spec_finished(),
    {
        !(self.stat == Status::Open || self.attempts == self.retries)
    }

    /// Consumes the outcome of one attempt: success opens the port and ends
    /// the run at once; a timeout marks it; a refusal leaves the status as
    /// it was. With a budget of one, one recorded outcome always ends the
    /// run.
    pub fn record(&mut self, o: AttemptOutcome)
        requires
            old(self).wf(),
            !old(self).spec_finished(),
        ensures
            final(self).wf(),
            final(self).retries == old(self).retries,
            final(self).attempts == old(self).attempts + 1,
            final(self).history@ == old(self).history@.push(o),
            o is Connected ==> final(self).stat is Open && final(self).spec_finished(),
            o is TimedOut ==> final(self).stat is TimedOut,
            o is Refused ==> final(self).stat == old(self).stat,
            final(self).spec_finished() == (o is Connected || final(self).attempts
                == old(self).retries),
    {
        proof {
            assert(self.history@.push(o).drop_last() =~= self.history@);
        }
        match o {
            AttemptOutcome::Connected => {
                self.stat = Status::Open;
            },
            AttemptOutcome::TimedOut => {
                self.stat = Status::TimedOut;
            },
            AttemptOutcome::Refused => {
            },
        }
        self.attempts = self.attempts + 1;
        self.history = Ghost(self.history@.push(o));
    }

    /// The terminal status once the machine is done.
    pub fn status(&self) -> (r: Status)
        requires
            self.wf(),
            self.spec_finished(),
        ensures
            r == status_after(self.history@),
            r is Open <==> self.history@.contains(AttemptOutcome::Connected),
    {
        proof {
            lemma_open_iff_connected(self.history@);
        }
        self.stat
    }
}

} // verus!
