//! The order in which writes become readable.
use crate::seqs::SeqMap;
use crate::topic_state::{erase_set, run, StagedAppend, TopicState, TopicView};
use crate::types::Durability;
use vstd::prelude::*;

verus! {

/// The ticket after a ticket.
pub open spec fn next_ticket(t: u64) -> u64 {
    if t == u64::MAX {
        0
    } else {
        (t + 1) as u64
    }
}

/// Tickets are given out in the order in which writes are staged, and come up in
/// that order.
#[derive(Debug, Clone, Copy, PartialEq, Eq, Structural)]
pub struct PublishGate {
    /// The next ticket to be given out.
    pub next_ticket: u64,
    /// The ticket whose turn it is.
    pub turn: u64,
}

impl PublishGate {
    /// Gives out the next ticket.
    pub fn take_ticket(&mut self) -> (r: u64)
        ensures
            r == old(self).next_ticket,
            *final(self) == (PublishGate {
                next_ticket: next_ticket(old(self).next_ticket),
                ..*old(self)
            }),
    {
        let t: u64 = self.next_ticket;
        self.next_ticket = if t == u64::MAX {
            0
        } else {
            t + 1
        };
        t
    }

    /// Passes the turn on to the next ticket.
    pub fn pass_turn(&mut self)
        ensures
            *final(self) == (PublishGate { turn: next_ticket(old(self).turn), ..*old(self) }),
    {
        self.turn = if self.turn == u64::MAX {
            0
        } else {
            self.turn + 1
        };
    }

    /// Whether every ticket given out has come up.
    pub fn is_quiet(&self) -> (r: bool)
        ensures
            r == (self.turn == self.next_ticket),
    {
        self.turn == self.next_ticket
    }
}

/// What entitles a write to become readable.
#[derive(Debug, Clone, Copy, PartialEq, Eq, Structural)]
pub enum PublishPermitKind {
    /// It lives in memory alone.
    Resident,
    /// It is logged, and perhaps flushed to the disk.
    WalCommitted { fsynced: bool },
    /// It is derived from records that are logged.
    Derived,
    /// It is read back from the log.
    Recovery,
}

/// What entitles a write to become readable.
#[derive(Debug, Clone, Copy, PartialEq, Eq, Structural)]
pub struct PublishPermit {
    pub kind: PublishPermitKind,
}

impl PublishPermit {
    /// For records that live in memory alone.
    pub fn resident() -> (r: PublishPermit)
        ensures
            r.kind == PublishPermitKind::Resident,
    {
        PublishPermit { kind: PublishPermitKind::Resident }
    }

    /// For records that are logged.
    pub fn wal_committed(fsynced: bool) -> (r: PublishPermit)
        ensures
            r.kind == (PublishPermitKind::WalCommitted { fsynced }),
    {
        PublishPermit { kind: PublishPermitKind::WalCommitted { fsynced } }
    }

    /// For records that are derived from others.
    pub fn derived() -> (r: PublishPermit)
        ensures
            r.kind == PublishPermitKind::Derived,
    {
        PublishPermit { kind: PublishPermitKind::Derived }
    }

    /// For records that are read back.
    pub fn recovery() -> (r: PublishPermit)
        ensures
            r.kind == PublishPermitKind::Recovery,
    {
        PublishPermit { kind: PublishPermitKind::Recovery }
    }

    /// A permit entitles to a new head: what is logged must have its sequence
    /// numbers reserved on a topic of the disk class, and must have reached the disk
    /// on one of the fsync class.
    pub open spec fn entitles(self, class: Durability, new_head: u64, reserved: u64) -> bool {
        match self.kind {
            PublishPermitKind::WalCommitted { fsynced } => {
                &&& class == Durability::Disk ==> new_head <= reserved
                &&& class == Durability::Fsync ==> fsynced
            },
            _ => true,
        }
    }

    /// Whether a permit entitles to a new head.
    pub fn allows(&self, class: Durability, new_head: u64, reserved: u64) -> (r: bool)
        ensures
            r == self.entitles(class, new_head, reserved),
    {
        match self.kind {
            PublishPermitKind::WalCommitted { fsynced } => match class {
                Durability::Disk => new_head <= reserved,
                Durability::Fsync => fsynced,
                Durability::Memory => true,
            },
            _ => true,
        }
    }
}

/// What is owed if the holder of a ticket fails before it is done.
#[derive(Debug, Clone, Copy, PartialEq, Eq, Structural)]
pub enum UnwindAction {
    /// Nothing.
    Pass,
    /// The staged run is taken back in place.
    RollbackAppend { start: u64, count: u64 },
    /// What is logged was not applied: the process must stop and recover.
    AbortProcess,
}

/// The holder of a publish ticket.
#[derive(Debug, Clone, Copy, PartialEq, Eq, Structural)]
pub struct PublishGuard {
    pub ticket: u64,
    pub on_unwind: UnwindAction,
}

impl PublishGuard {
    /// The ticket.
    pub fn ticket(&self) -> (r: u64)
        ensures
            r == self.ticket,
    {
        self.ticket
    }

    /// From now on a failure takes a staged run back.
    pub fn arm_append(&mut self, staged: &StagedAppend)
        ensures
            final(self).ticket == old(self).ticket,
            final(self).on_unwind == (UnwindAction::RollbackAppend {
                start: staged.start,
                count: staged.count,
            }),
    {
        self.on_unwind = UnwindAction::RollbackAppend { start: staged.start, count: staged.count };
    }

    /// From now on a failure stops the process.
    pub fn arm_abort_on_unwind(&mut self)
        ensures
            final(self).ticket == old(self).ticket,
            final(self).on_unwind == UnwindAction::AbortProcess,
    {
        self.on_unwind = UnwindAction::AbortProcess;
    }
}

impl TopicState {
    /// Gives out the next ticket to a holder that owes nothing yet.
    pub fn publish_guard(&mut self) -> (r: PublishGuard)
        requires
            old(self).wf(),
        ensures
            final(self).wf(),
            final(self)@ == old(self)@.ticketed(),
            r == (PublishGuard { ticket: old(self)@.next_ticket, on_unwind: UnwindAction::Pass }),
    {
        PublishGuard { ticket: self.next_publish_ticket(), on_unwind: UnwindAction::Pass }
    }

    /// The holder of a ticket failed, and it is its turn: what it staged is taken
    /// back, and the turn passes on, so that nobody behind it waits for ever. Says
    /// whether the process must stop instead; then nothing changes.
    pub fn unwind(&mut self, g: PublishGuard) -> (stop: bool)
        requires
            old(self).wf(),
            old(self)@.turn == g.ticket,
            g.on_unwind is RollbackAppend ==> g.on_unwind->start + g.on_unwind->count
                <= u64::MAX,
        ensures
            final(self).wf(),
            stop == (g.on_unwind == UnwindAction::AbortProcess),
            match g.on_unwind {
                UnwindAction::Pass => final(self)@ == old(self)@.turned(),
                UnwindAction::RollbackAppend { start, count } => final(self)@ == (TopicView {
                    recs: erase_set(
                        old(self)@.base,
                        old(self)@.recs,
                        run(start, count).to_set(),
                    ),
                    ..old(self)@
                }).turned(),
                UnwindAction::AbortProcess => final(self)@ == old(self)@,
            },
    {
        match g.on_unwind {
            UnwindAction::Pass => {},
            UnwindAction::RollbackAppend { start, count } => {
                let staged = StagedAppend { start, count, added_bytes: 0, pre_len: 0 };
                self.rollback_staged_by_seqs(&staged);
            },
            UnwindAction::AbortProcess => {
                return true;
            },
        }
        self.publish_done(g.ticket);
        false
    }

    /// Whether a permit entitles the topic to a new head.
    pub fn permits(&self, new_head: u64, permit: PublishPermit) -> (r: bool)
        ensures
            r == permit.entitles(self@.config.class(), new_head, self@.reserved),
    {
        permit.allows(self.config.durability_class(), new_head, self.reserved_head)
    }
}

/// The runs of records that were published but not yet written to a segment. Runs
/// are written in order of their sequence numbers, whatever the order in which
/// they come.
#[derive(Debug)]
pub struct MaterializeSeam {
    /// The first sequence number not yet written.
    pub next: u64,
    /// Runs that wait for an earlier one: where they start and where they end.
    pub pending: SeqMap<u64>,
}

/// A sequence number lies in a run that waits.
pub open spec fn waits(pending: Map<u64, u64>, n: int) -> bool {
    exists|s: u64| #[trigger] pending.contains_key(s) && s <= n <= pending[s]
}

/// Runs follow one another without a gap, from one sequence number to before
/// another.
pub open spec fn chain(runs: Seq<(u64, u64)>, from: u64, to: u64) -> bool
    decreases runs.len(),
{
    if runs.len() == 0 {
        from == to
    } else {
        &&& runs.last().0 <= runs.last().1
        &&& runs.last().1 + 1 == to
        &&& chain(runs.drop_last(), from, runs.last().0)
    }
}

impl MaterializeSeam {
    /// What waits starts beyond a gap.
    pub open spec fn wf(&self) -> bool {
        &&& self.pending.wf()
        &&& forall|s: u64| #[trigger]
            self.pending@.contains_key(s) ==> self.next < s <= self.pending@[s]
                && self.pending@[s] < u64::MAX
    }

    /// Nothing written, from a first sequence number on.
    pub fn new(next: u64) -> (r: MaterializeSeam)
        ensures
            r.wf(),
            r.next == next,
            r.pending@ == Map::<u64, u64>::empty(),
    {
        MaterializeSeam { next, pending: SeqMap::new() }
    }

    /// Takes a published run, and says what can be written now, in order: from the
    /// first sequence number not yet written up to the next gap.
    pub fn feed(&mut self, start: u64, end: u64) -> (r: Vec<(u64, u64)>)
        requires
            old(self).wf(),
            start <= end < u64::MAX,
        ensures
            final(self).wf(),
            old(self).next <= final(self).next,
            chain(r@, old(self).next, final(self).next),
            forall|n: int|
                old(self).next <= n < final(self).next ==> start <= n <= end || #[trigger] waits(
                    old(self).pending@,
                    n,
                ),
            !waits(old(self).pending@, final(self).next as int),
            !(start <= final(self).next <= end),
            forall|n: int|
                n >= final(self).next ==> (#[trigger] waits(final(self).pending@, n) <==> (waits(
                    old(self).pending@,
                    n,
                ) || start <= n <= end)),
    {
        let ghost p0 = self.pending@;
        let ghost n0 = self.next;
        let mut out: Vec<(u64, u64)> = Vec::new();
        if end < self.next {
            proof {
                assert(!waits(p0, n0 as int));
            }
            return out;
        }
        if start <= self.next {
            out.push((self.next, end));
            self.next = end + 1;
            proof {
                assert(out@.drop_last() =~= Seq::<(u64, u64)>::empty());
                assert(chain(out@.drop_last(), n0, n0));
                assert(chain(out@, n0, self.next));
            }
        } else {
            let e: u64 = match self.pending.get(start) {
                Some(x) => if *x > end {
                    *x
                } else {
                    end
                },
                None => end,
            };
            self.pending.insert(start, e);
            proof {
                assert forall|n: int| #[trigger] waits(self.pending@, n) <==> waits(p0, n)
                    || start <= n <= end by {
                    if waits(self.pending@, n) {
                        let s = choose|s: u64| #[trigger]
                            self.pending@.contains_key(s) && s <= n <= self.pending@[s];
                        if s != start {
                            assert(p0.contains_key(s));
                        } else if p0.contains_key(start) {
                            assert(n <= end || n <= p0[start]);
                        }
                    }
                    if waits(p0, n) {
                        let s = choose|s: u64| #[trigger] p0.contains_key(s) && s <= n <= p0[s];
                        assert(self.pending@.contains_key(s));
                    }
                    if start <= n <= end {
                        assert(self.pending@.contains_key(start));
                    }
                }
            }
        }
        let ghost p1 = self.pending@;
        let ghost fed = start <= n0;
        proof {
            assert forall|n: int| #[trigger] waits(p1, n) || (fed && start <= n <= end) <==> waits(
                p0,
                n,
            ) || start <= n <= end by {}
        }
        loop
            invariant
                self.pending.wf(),
                n0 <= self.next,
                chain(out@, n0, self.next),
                fed ==> end < self.next,
                forall|s: u64| #[trigger]
                    self.pending@.contains_key(s) ==> p1.contains_key(s) && self.pending@[s]
                        == p1[s],
                forall|s: u64| #[trigger]
                    p1.contains_key(s) && !self.pending@.contains_key(s) ==> p1[s] < self.next,
                forall|s: u64| #[trigger]
                    p1.contains_key(s) ==> s <= p1[s] < u64::MAX,
                forall|n: int|
                    n0 <= n < self.next ==> (fed && start <= n <= end) || #[trigger] waits(p1, n),
            ensures
                forall|s: u64| #[trigger] self.pending@.contains_key(s) ==> self.next < s,
            decreases self.pending.pairs().len(),
        {
            if self.pending.len() == 0 {
                proof {
                    assert forall|s: u64| !#[trigger] self.pending@.contains_key(s) by {
                        if self.pending@.contains_key(s) {
                            let i = self.pending.key_in_list(s);
                        }
                    }
                }
                break;
            }
            let s: u64 = self.pending.at(0).0;
            let e: u64 = self.pending.at(0).1;
            proof {
                self.pending.pair_in_map(0);
            }
            if s > self.next {
                proof {
                    self.pending.keys_are_domain();
                    assert forall|x: u64| #[trigger] self.pending@.contains_key(
                        x,
                    ) implies self.next < x by {
                        let i = self.pending.key_in_list(x);
                        let ks = crate::seqs::keys_of(self.pending.pairs());
                        assert(ks[0] == s);
                        assert(ks[i] == x);
                        if i > 0 {
                            assert(ks[0] < ks[i]);
                        }
                    }
                }
                break;
            }
            self.pending.remove_first();
            if e >= self.next {
                let ghost o = out@;
                let from: u64 = self.next;
                out.push((from, e));
                self.next = e + 1;
                proof {
                    assert(out@.drop_last() =~= o);
                    assert forall|n: int| n0 <= n < self.next implies (fed && start <= n <= end)
                        || #[trigger] waits(p1, n) by {
                        if n >= from {
                            assert(p1.contains_key(s));
                        }
                    }
                }
            }
        }
        proof {
            let nx = self.next as int;
            assert(!waits(p1, nx)) by {
                if waits(p1, nx) {
                    let s = choose|s: u64| #[trigger] p1.contains_key(s) && s <= nx <= p1[s];
                    if self.pending@.contains_key(s) {
                    }
                }
            }
            assert(waits(p1, nx) || (fed && start <= nx <= end) <==> waits(p0, nx) || start <= nx
                <= end);
            assert forall|n: int| n >= nx implies (#[trigger] waits(self.pending@, n) <==> (waits(
                p0,
                n,
            ) || start <= n <= end)) by {
                assert(waits(p1, n) || (fed && start <= n <= end) <==> waits(p0, n) || start <= n
                    <= end);
                if waits(p1, n) {
                    let s = choose|s: u64| #[trigger] p1.contains_key(s) && s <= n <= p1[s];
                    assert(self.pending@.contains_key(s));
                }
                if waits(self.pending@, n) {
                    let s = choose|s: u64| #[trigger]
                        self.pending@.contains_key(s) && s <= n <= self.pending@[s];
                    assert(p1.contains_key(s));
                }
            }
            assert forall|n: int| n0 <= n < nx implies start <= n <= end || #[trigger] waits(
                p0,
                n,
            ) by {
                assert(waits(p1, n) || (fed && start <= n <= end) <==> waits(p0, n) || start <= n
                    <= end);
            }
        }
        out
    }
}

} // verus!
