//! The concurrency scheduler's bookkeeping core: which ports are pending,
//! which probes are in flight, and which records are done.
//!
//! The host environment runs the probes; it asks this state machine for the
//! next port whenever it can start one and hands every finished record back.
//! The machine never admits more than `workers` probes at once, and when the
//! run drains, the done records account for every requested port exactly
//! once.

use vstd::prelude::*;
use vstd::multiset::Multiset;
use crate::scan::Port;
use crate::scan::port_nums;

verus! {

broadcast use vstd::seq_lib::group_to_multiset_ensures;

/// The scan scheduler: pending ports are admitted in order, at most
/// `workers` at a time, and completed records are collected unordered.
pub struct Scheduler {
    /// Ports not yet handed to a probe, in scheduling order.
    pub queue: Vec<Port>,
    /// The port numbers of the probes currently in flight.
    pub in_flight: Vec<u16>,
    /// The completed records, in completion order.
    pub done: Vec<Port>,
    /// The concurrency budget: at least 1.
    pub workers: usize,
    /// The numbers of all ports the run was asked for, in order.
    pub all: Ghost<Seq<u16>>,
}

impl Scheduler {
    /// How many ports have been handed to a probe so far.
    pub open spec fn admitted(&self) -> int {
        self.all@.len() - self.queue@.len()
    }

    /// The scheduler's invariant: the in-flight count never passes the
    /// worker budget, the queue is exactly the unadmitted tail of the
    /// request, and every admitted port is either in flight or done.
    pub open spec fn wf(&self) -> bool {
        &&& self.workers >= 1
        &&& self.in_flight@.len() <= self.workers
        &&& self.queue@.len() <= self.all@.len()
        &&& port_nums(self.queue@) == self.all@.skip(self.admitted())
        &&& port_nums(self.done@).to_multiset().add(self.in_flight@.to_multiset())
            == self.all@.take(self.admitted()).to_multiset()
    }

    /// A scheduler over the given ports with a concurrency budget of
    /// `workers`.
    pub fn new(ports: Vec<Port>, workers: usize) -> (r: Scheduler)
        requires
            workers >= 1,
        ensures
            r.wf(),
            r.all@ == port_nums(ports@),
            r.queue@ == ports@,
            r.done@.len() == 0,
            r.in_flight@.len() == 0,
            r.workers == workers,
    {
        let r = Scheduler {
            queue: ports,
            in_flight: Vec::new(),
            done: Vec::new(),
            workers,
            all: Ghost(ports@.map_values(|p: Port| p.num)),
        };
        proof {
            assert(port_nums(r.queue@) =~= r.all@.skip(0));
            assert(r.all@.take(0) =~= Seq::<u16>::empty());
            assert(port_nums(r.done@) =~= Seq::<u16>::empty());
            assert(port_nums(r.done@).to_multiset().add(r.in_flight@.to_multiset())
                =~= r.all@.take(0).to_multiset());
        }
        r
    }

    /// Starts the next pending port when a worker slot is free: returns the
    /// head of the queue and counts its probe as in flight. Returns `None`
    /// exactly when the queue is empty or all worker slots are taken —
    /// never more than `workers` probes are in flight at once.
    pub fn launch(&mut self) -> (r: Option<Port>)
        requires
            old(self).wf(),
        ensures
            final(self).wf(),
            final(self).workers == old(self).workers,
            final(self).all@ == old(self).all@,
            final(self).done@ == old(self).done@,
            match r {
                Some(p) => {
                    &&& old(self).queue@.len() > 0
                    &&& old(self).in_flight@.len() < old(self).workers
                    &&& p == old(self).queue@[0]
                    &&& final(self).queue@ == old(self).queue@.drop_first()
                    &&& final(self).in_flight@ == old(self).in_flight@.push(p.num)
                },
                None => {
                    &&& (old(self).queue@.len() == 0 || old(self).in_flight@.len() == old(
                        self,
                    ).workers)
                    &&& *final(self) == *old(self)
                },
            },
    {
        if self.queue.len() > 0 && self.in_flight.len() < self.workers {
            let ghost k = self.admitted();
            let p = self.queue.remove(0);
            self.in_flight.push(p.num);
            proof {
                assert(old(self).queue@.remove(0) =~= old(self).queue@.drop_first());
                assert(port_nums(self.queue@) =~= port_nums(old(self).queue@).drop_first());
                assert(port_nums(old(self).queue@).drop_first() =~= self.all@.skip(k + 1));
                assert(p.num == port_nums(old(self).queue@)[0]);
                assert(p.num == self.all@[k]);
                assert(self.all@.take(k + 1) =~= self.all@.take(k as int).push(self.all@[k]));
                assert(port_nums(self.done@).to_multiset().add(self.in_flight@.to_multiset())
                    =~= self.all@.take(k + 1).to_multiset());
            }
            Some(p)
        } else {
            None
        }
    }

    /// Whether a probe for this port number is counted as in flight.
    pub fn is_in_flight(&self, num: u16) -> (r: bool)
        ensures
            r == self.in_flight@.contains(num),
    {
        let mut j: usize = 0;
        let n = self.in_flight.len();
        while j < n
            invariant
                j <= n,
                n == self.in_flight@.len(),
                forall|t: int| 0 <= t < j ==> self.in_flight@[t] != num,
            decreases n - j,
        {
            if self.in_flight[j] == num {
                return true;
            }
            j = j + 1;
        }
        false
    }

    /// Takes back the finished record of an in-flight probe: its probe slot
    /// is freed and the record joins the done records.
    pub fn complete(&mut self, rec: Port)
        requires
            old(self).wf(),
            old(self).in_flight@.contains(rec.num),
        ensures
            final(self).wf(),
            final(self).workers == old(self).workers,
            final(self).all@ == old(self).all@,
            final(self).queue@ == old(self).queue@,
            final(self).done@ == old(self).done@.push(rec),
            final(self).in_flight@.to_multiset() == old(self).in_flight@.to_multiset().remove(
                rec.num,
            ),
            final(self).in_flight@.len() == old(self).in_flight@.len() - 1,
    {
        let mut j: usize = 0;
        let n = self.in_flight.len();
        loop
            invariant
                j < n,
                n == self.in_flight@.len(),
                *self == *old(self),
                forall|t: int| 0 <= t < j ==> self.in_flight@[t] != rec.num,
                self.in_flight@.contains(rec.num),
            ensures
                j < self.in_flight@.len(),
                *self == *old(self),
                self.in_flight@[j as int] == rec.num,
            decreases n - j,
        {
            if self.in_flight[j] == rec.num {
                break ;
            }
            proof {
                if j + 1 == n {
                    let t = choose|t: int|
                        0 <= t < self.in_flight@.len() && #[trigger] self.in_flight@[t] == rec.num;
                    assert(false);
                }
            }
            j = j + 1;
        }
        self.in_flight.remove(j);
        self.done.push(rec);
        proof {
            assert(port_nums(self.done@) =~= port_nums(old(self).done@).push(rec.num));
            assert(self.in_flight@.to_multiset() =~= old(self).in_flight@.to_multiset().remove(
                rec.num,
            ));
            assert(port_nums(self.done@).to_multiset().add(self.in_flight@.to_multiset())
                =~= port_nums(old(self).done@).to_multiset().add(
                old(self).in_flight@.to_multiset(),
            ));
        }
    }

    /// Whether the run has drained: nothing pending and nothing in flight.
    pub fn finished(&self) -> (r: bool)
        ensures
            r == (self.queue@.len() == 0 && self.in_flight@.len() == 0),
    {
        self.queue.len() == 0 && self.in_flight.len() == 0
    }
}

/// A drained run accounts for every requested port: the done records carry
/// exactly the requested numbers, and when the request had no duplicates —
/// as a normalized port list never does — there is exactly one record per
/// port.
pub proof fn lemma_run_accounts_for_every_port(s: Scheduler)
    requires
        s.wf(),
        s.queue@.len() == 0,
        s.in_flight@.len() == 0,
    ensures
        port_nums(s.done@).to_multiset() == s.all@.to_multiset(),
        s.done@.len() == s.all@.len(),
        s.all@.no_duplicates() ==> port_nums(s.done@).no_duplicates(),
{
    assert(s.all@.take(s.admitted()) =~= s.all@);
    assert(s.in_flight@.to_multiset() =~= Multiset::<u16>::empty());
    assert(port_nums(s.done@).to_multiset() =~= port_nums(s.done@).to_multiset().add(
        s.in_flight@.to_multiset(),
    ));
    assert(port_nums(s.done@).len() == port_nums(s.done@).to_multiset().len());
    assert(s.all@.len() == s.all@.to_multiset().len());
    if s.all@.no_duplicates() {
        s.all@.lemma_multiset_has_no_duplicates();
        port_nums(s.done@).lemma_multiset_has_no_duplicates_conv();
    }
}

} // verus!
