//! The decode scheduler: which pages wait for a decode, which are being
//! decoded, and what becomes of a decode that ends.
//!
//! The scheduler decides; it runs nothing. Workers take jobs from it with
//! `next_job` and report back with `complete`. For every page there is at
//! most one ticket, so no page is ever decoded twice at the same time.

use crate::error::ErrorKind;
use crate::page::DecodedPage;
use vstd::prelude::*;

verus! {

/// How urgent a decode is.
#[derive(Clone, Copy, Debug, PartialEq, Eq, Hash, Structural)]
pub enum Priority {
    Background,
    Prefetch,
    Visible,
}

impl Priority {
    /// The place of the priority in the order of urgency.
    pub open spec fn rank(self) -> int {
        match self {
            Priority::Background => 0,
            Priority::Prefetch => 1,
            Priority::Visible => 2,
        }
    }

    /// The more urgent of two priorities.
    pub open spec fn higher(self, other: Priority) -> Priority {
        if self.rank() >= other.rank() {
            self
        } else {
            other
        }
    }

    /// The place of the priority in the order of urgency.
    pub fn level(&self) -> (r: u8)
        ensures
            r == self.rank(),
    {
        match self {
            Priority::Background => 0,
            Priority::Prefetch => 1,
            Priority::Visible => 2,
        }
    }

    /// The more urgent of two priorities.
    pub fn max(self, other: Priority) -> (p: Priority)
        ensures
            p == self.higher(other),
    {
        if self.level() >= other.level() {
            self
        } else {
            other
        }
    }
}

/// The number of workers that decode in the background on a machine with
/// `hardware_threads` hardware threads: one less than that, at least one.
pub fn worker_count(hardware_threads: usize) -> (n: usize)
    ensures
        n >= 1,
        n == if hardware_threads >= 2 {
            hardware_threads - 1
        } else {
            1
        },
{
    if hardware_threads >= 2 {
        hardware_threads - 1
    } else {
        1
    }
}

/// Where a ticket stands.
#[derive(Clone, Copy, Debug, PartialEq, Eq, Structural)]
pub enum TicketState {
    /// Waiting for a worker.
    Queued,
    /// A worker is decoding the page.
    Running,
    /// The decode failed; nothing runs until the page is requested again.
    Failed(ErrorKind),
}

/// The name of a requested decode.
#[derive(Clone, Copy, Debug, PartialEq, Eq, Hash, Structural)]
pub struct DecodeTicket {
    pub id: u64,
    pub page: usize,
}

/// What the scheduler knows of one page.
#[derive(Clone, Copy, Debug, PartialEq, Eq, Structural)]
pub struct Ticket {
    pub id: u64,
    pub page: usize,
    pub priority: Priority,
    pub state: TicketState,
    /// The result of the running decode is to be thrown away.
    pub cancelled: bool,
    /// The page is wanted again once the running decode has ended.
    pub again: bool,
}

impl Ticket {
    /// Whether work for the ticket is waiting or running.
    pub open spec fn in_flight(self) -> bool {
        self.state is Queued || self.state is Running
    }

    /// Whether the ticket is served before `other`: by urgency, then by age.
    pub open spec fn before(self, other: Ticket) -> bool {
        self.priority.rank() > other.priority.rank() || (self.priority.rank()
            == other.priority.rank() && self.id < other.id)
    }
}

/// What a request came to.
#[derive(Clone, Copy, Debug, PartialEq, Eq, Structural)]
pub enum RequestOutcome {
    /// The page is cached already; nothing was scheduled.
    Completed,
    /// A decode is waiting or running under this ticket.
    Pending(DecodeTicket),
    /// The scheduler is shut down, or has run out of ticket numbers.
    Refused,
}

/// A decode for a worker to run.
#[derive(Clone, Copy, Debug, PartialEq, Eq, Structural)]
pub struct Job {
    pub ticket: DecodeTicket,
    pub generation: u64,
}

/// What becomes of a decode that ended.
pub enum Completion {
    /// The page is to be cached.
    Decoded(usize, DecodedPage),
    /// The page failed; the ticket keeps the reason.
    Failed(usize, ErrorKind),
    /// Nobody waits for the result any more.
    Discarded,
}

/// The scheduler, as specifications see it.
pub struct SchedulerModel {
    pub tickets: Seq<Ticket>,
    pub next_id: u64,
    pub generation: u64,
    pub accepting: bool,
}

/// Whether some ticket is for `page`.
pub open spec fn has_page(ts: Seq<Ticket>, page: usize) -> bool {
    exists|i: int| 0 <= i < ts.len() && (#[trigger] ts[i]).page == page
}

/// Where the ticket for `page` stands.
pub open spec fn page_pos(ts: Seq<Ticket>, page: usize) -> int {
    choose|i: int| 0 <= i < ts.len() && (#[trigger] ts[i]).page == page
}

/// Whether some ticket has the number `id`.
pub open spec fn has_id(ts: Seq<Ticket>, id: u64) -> bool {
    exists|i: int| 0 <= i < ts.len() && (#[trigger] ts[i]).id == id
}

/// Where the ticket with the number `id` stands.
pub open spec fn id_pos(ts: Seq<Ticket>, id: u64) -> int {
    choose|i: int| 0 <= i < ts.len() && (#[trigger] ts[i]).id == id
}

/// Whether the ticket at `i` waits and no waiting ticket is served before it.
pub open spec fn is_next(ts: Seq<Ticket>, i: int) -> bool {
    &&& 0 <= i < ts.len()
    &&& ts[i].state is Queued
    &&& forall|j: int|
        0 <= j < ts.len() && (#[trigger] ts[j]).state is Queued ==> !ts[j].before(ts[i])
}

/// Whether some ticket waits.
pub open spec fn has_queued(ts: Seq<Ticket>) -> bool {
    exists|i: int| 0 <= i < ts.len() && (#[trigger] ts[i]).state is Queued
}

/// Where the ticket that is served next stands.
pub open spec fn next_pos(ts: Seq<Ticket>) -> int {
    choose|i: int| is_next(ts, i)
}

/// A rule by which tickets are dropped or marked in one sweep.
#[derive(Clone, Copy, Debug, PartialEq, Eq, Structural)]
pub enum Rule {
    /// Keep the running decodes only, each to end unheard.
    Orphan,
    /// Cancel the prefetches of pages further than `window` from `center`.
    Sweep { center: usize, window: usize },
}

/// Whether `page` lies further than `window` pages from `center`.
pub open spec fn far(center: usize, window: usize, page: usize) -> bool {
    page > center + window || page + window < center
}

impl Rule {
    /// What the rule makes of a ticket: nothing, or the ticket to keep.
    pub open spec fn apply(self, t: Ticket) -> Option<Ticket> {
        match self {
            Rule::Orphan => if t.state is Running {
                Some(Ticket { cancelled: true, again: false, ..t })
            } else {
                None
            },
            Rule::Sweep { center, window } => if t.priority == Priority::Prefetch && far(
                center,
                window,
                t.page,
            ) {
                match t.state {
                    TicketState::Queued => None,
                    TicketState::Running => Some(Ticket { cancelled: true, again: false, ..t }),
                    TicketState::Failed(_) => Some(t),
                }
            } else {
                Some(t)
            },
        }
    }
}

/// The tickets that a rule leaves, in their order.
pub open spec fn thinned(ts: Seq<Ticket>, rule: Rule) -> Seq<Ticket>
    decreases ts.len(),
{
    if ts.len() == 0 {
        ts
    } else {
        match rule.apply(ts.last()) {
            Some(t) => thinned(ts.drop_last(), rule).push(t),
            None => thinned(ts.drop_last(), rule),
        }
    }
}

/// The pages whose tickets a rule drops or changes, in the order of the tickets.
pub open spec fn affected(ts: Seq<Ticket>, rule: Rule) -> Seq<usize>
    decreases ts.len(),
{
    if ts.len() == 0 {
        Seq::empty()
    } else if rule.apply(ts.last()) == Some(ts.last()) {
        affected(ts.drop_last(), rule)
    } else {
        affected(ts.drop_last(), rule).push(ts.last().page)
    }
}

/// The tickets that outlive a shutdown or a change of archive: those whose
/// decode is running, each marked so that its result is thrown away.
pub open spec fn orphaned(ts: Seq<Ticket>) -> Seq<Ticket> {
    thinned(ts, Rule::Orphan)
}

impl SchedulerModel {
    /// A scheduler that has seen nothing yet.
    pub open spec fn fresh() -> SchedulerModel {
        SchedulerModel { tickets: Seq::empty(), next_id: 0, generation: 0, accepting: true }
    }

    /// What holds of every scheduler between two operations.
    pub open spec fn wf(self) -> bool {
        &&& forall|i: int, j: int|
            0 <= i < j < self.tickets.len() ==> (#[trigger] self.tickets[i]).page != (
            #[trigger] self.tickets[j]).page
        &&& forall|i: int, j: int|
            0 <= i < j < self.tickets.len() ==> (#[trigger] self.tickets[i]).id != (
            #[trigger] self.tickets[j]).id
        &&& forall|i: int|
            0 <= i < self.tickets.len() ==> (#[trigger] self.tickets[i]).id < self.next_id
        &&& forall|i: int|
            0 <= i < self.tickets.len() && !((#[trigger] self.tickets[i]).state is Running)
                ==> !self.tickets[i].cancelled && !self.tickets[i].again
        &&& forall|i: int|
            0 <= i < self.tickets.len() && (#[trigger] self.tickets[i]).again
                ==> self.tickets[i].cancelled
        &&& !self.accepting ==> forall|i: int|
            0 <= i < self.tickets.len() ==> (#[trigger] self.tickets[i]).state is Running
                && self.tickets[i].cancelled && !self.tickets[i].again
    }

    /// Whether a decode for `page` waits or runs.
    pub open spec fn in_flight(self, page: usize) -> bool {
        exists|i: int|
            0 <= i < self.tickets.len() && (#[trigger] self.tickets[i]).page == page
                && self.tickets[i].in_flight()
    }

    /// The reason why `page` failed, if it did and was not requested since.
    pub open spec fn failure(self, page: usize) -> Option<ErrorKind> {
        if has_page(self.tickets, page) {
            match self.tickets[page_pos(self.tickets, page)].state {
                TicketState::Failed(kind) => Some(kind),
                _ => None,
            }
        } else {
            None
        }
    }

    /// Whether no decode waits or runs.
    pub open spec fn idle(self) -> bool {
        forall|i: int| 0 <= i < self.tickets.len() ==> !(#[trigger] self.tickets[i]).in_flight()
    }

    /// The scheduler after `page` was requested at `priority`; `cached`
    /// says whether the page is in the decoded page cache.
    pub open spec fn after_request(self, page: usize, priority: Priority, cached: bool) -> SchedulerModel {
        if !self.accepting || cached {
            self
        } else if has_page(self.tickets, page) {
            let i = page_pos(self.tickets, page);
            let t = self.tickets[i];
            match t.state {
                TicketState::Failed(_) => if self.next_id == u64::MAX {
                    self
                } else {
                    SchedulerModel {
                        tickets: self.tickets.update(
                            i,
                            Ticket {
                                id: self.next_id,
                                page,
                                priority,
                                state: TicketState::Queued,
                                cancelled: false,
                                again: false,
                            },
                        ),
                        next_id: (self.next_id + 1) as u64,
                        ..self
                    }
                },
                TicketState::Queued => SchedulerModel {
                    tickets: self.tickets.update(
                        i,
                        Ticket { priority: t.priority.higher(priority), ..t },
                    ),
                    ..self
                },
                TicketState::Running => SchedulerModel {
                    tickets: self.tickets.update(
                        i,
                        Ticket {
                            priority: t.priority.higher(priority),
                            again: t.again || t.cancelled,
                            ..t
                        },
                    ),
                    ..self
                },
            }
        } else if self.next_id == u64::MAX {
            self
        } else {
            SchedulerModel {
                tickets: self.tickets.push(
                    Ticket {
                        id: self.next_id,
                        page,
                        priority,
                        state: TicketState::Queued,
                        cancelled: false,
                        again: false,
                    },
                ),
                next_id: (self.next_id + 1) as u64,
                ..self
            }
        }
    }

    /// What a request for `page` is answered with.
    pub open spec fn request_outcome(self, page: usize, cached: bool) -> RequestOutcome {
        if !self.accepting {
            RequestOutcome::Refused
        } else if cached {
            RequestOutcome::Completed
        } else if has_page(self.tickets, page) {
            let t = self.tickets[page_pos(self.tickets, page)];
            match t.state {
                TicketState::Failed(_) => if self.next_id == u64::MAX {
                    RequestOutcome::Refused
                } else {
                    RequestOutcome::Pending(DecodeTicket { id: self.next_id, page })
                },
                _ => RequestOutcome::Pending(DecodeTicket { id: t.id, page }),
            }
        } else if self.next_id == u64::MAX {
            RequestOutcome::Refused
        } else {
            RequestOutcome::Pending(DecodeTicket { id: self.next_id, page })
        }
    }

    /// The scheduler after the ticket numbered `id` was cancelled: a
    /// waiting ticket is dropped, a running one has its result thrown away.
    pub open spec fn after_cancel(self, id: u64) -> SchedulerModel {
        if has_id(self.tickets, id) {
            let i = id_pos(self.tickets, id);
            let t = self.tickets[i];
            match t.state {
                TicketState::Queued => SchedulerModel { tickets: self.tickets.remove(i), ..self },
                TicketState::Running => SchedulerModel {
                    tickets: self.tickets.update(i, Ticket { cancelled: true, again: false, ..t }),
                    ..self
                },
                TicketState::Failed(_) => self,
            }
        } else {
            self
        }
    }

    /// The scheduler after a worker took the next job.
    pub open spec fn after_start(self) -> SchedulerModel {
        if has_queued(self.tickets) {
            let i = next_pos(self.tickets);
            SchedulerModel {
                tickets: self.tickets.update(
                    i,
                    Ticket { state: TicketState::Running, ..self.tickets[i] },
                ),
                ..self
            }
        } else {
            self
        }
    }

    /// The job that a worker takes next, if any ticket waits.
    pub open spec fn next_job(self) -> Option<Job> {
        if has_queued(self.tickets) {
            let t = self.tickets[next_pos(self.tickets)];
            Some(Job { ticket: DecodeTicket { id: t.id, page: t.page }, generation: self.generation })
        } else {
            None
        }
    }

    /// Whether the decode numbered `id` is running.
    pub open spec fn runs(self, id: u64) -> bool {
        has_id(self.tickets, id) && self.tickets[id_pos(self.tickets, id)].state is Running
    }

    /// Whether the result of the running decode `id`, started in
    /// `generation`, is thrown away.
    pub open spec fn stale(self, id: u64, generation: u64) -> bool {
        self.tickets[id_pos(self.tickets, id)].cancelled || generation != self.generation
    }

    /// The scheduler after the decode numbered `id`, started in
    /// `generation`, ended with `result`.
    pub open spec fn after_complete(self, id: u64, generation: u64, result: Result<DecodedPage, ErrorKind>) -> SchedulerModel {
        if !self.runs(id) {
            self
        } else {
            let i = id_pos(self.tickets, id);
            let t = self.tickets[i];
            if self.stale(id, generation) {
                if t.again && self.accepting {
                    SchedulerModel {
                        tickets: self.tickets.update(
                            i,
                            Ticket {
                                state: TicketState::Queued,
                                cancelled: false,
                                again: false,
                                ..t
                            },
                        ),
                        ..self
                    }
                } else {
                    SchedulerModel { tickets: self.tickets.remove(i), ..self }
                }
            } else {
                match result {
                    Ok(_) => SchedulerModel { tickets: self.tickets.remove(i), ..self },
                    Err(kind) => SchedulerModel {
                        tickets: self.tickets.update(
                            i,
                            Ticket { state: TicketState::Failed(kind), ..t },
                        ),
                        ..self
                    },
                }
            }
        }
    }

    /// What becomes of the result of the decode numbered `id`.
    pub open spec fn completion(self, id: u64, generation: u64, result: Result<DecodedPage, ErrorKind>) -> Completion {
        if !self.runs(id) || self.stale(id, generation) {
            Completion::Discarded
        } else {
            let t = self.tickets[id_pos(self.tickets, id)];
            match result {
                Ok(page) => Completion::Decoded(t.page, page),
                Err(kind) => Completion::Failed(t.page, kind),
            }
        }
    }

    /// The scheduler after the prefetches of pages further than `window`
    /// from `center` were cancelled: those that wait are dropped, those
    /// that run end unheard.
    pub open spec fn after_sweep(self, center: usize, window: usize) -> SchedulerModel {
        SchedulerModel { tickets: thinned(self.tickets, Rule::Sweep { center, window }), ..self }
    }

    /// The scheduler after a shutdown: it accepts nothing, and only the
    /// running decodes are left, to end unheard.
    pub open spec fn after_shutdown(self) -> SchedulerModel {
        SchedulerModel { tickets: orphaned(self.tickets), accepting: false, ..self }
    }

    /// The scheduler after the archive changed: a new generation begins,
    /// and only the running decodes are left, to end unheard.
    pub open spec fn after_archive_change(self) -> SchedulerModel {
        SchedulerModel {
            tickets: orphaned(self.tickets),
            generation: if self.generation == u64::MAX {
                0
            } else {
                (self.generation + 1) as u64
            },
            ..self
        }
    }
}

/// Among tickets for different pages, a page is found where it stands.
pub proof fn lemma_page_pos(m: SchedulerModel, page: usize, i: int)
    requires
        m.wf(),
        0 <= i < m.tickets.len(),
        m.tickets[i].page == page,
    ensures
        has_page(m.tickets, page),
        page_pos(m.tickets, page) == i,
{
    let p = page_pos(m.tickets, page);
    assert(0 <= p < m.tickets.len() && m.tickets[p].page == page);
    if p < i {
        assert(m.tickets[p].page != m.tickets[i].page);
    } else if i < p {
        assert(m.tickets[i].page != m.tickets[p].page);
    }
}

/// Among tickets with different numbers, a number is found where it stands.
pub proof fn lemma_id_pos(m: SchedulerModel, id: u64, i: int)
    requires
        m.wf(),
        0 <= i < m.tickets.len(),
        m.tickets[i].id == id,
    ensures
        has_id(m.tickets, id),
        id_pos(m.tickets, id) == i,
{
    let p = id_pos(m.tickets, id);
    assert(0 <= p < m.tickets.len() && m.tickets[p].id == id);
    if p < i {
        assert(m.tickets[p].id != m.tickets[i].id);
    } else if i < p {
        assert(m.tickets[i].id != m.tickets[p].id);
    }
}

/// Only one waiting ticket is served next.
pub proof fn lemma_next_pos(m: SchedulerModel, i: int)
    requires
        m.wf(),
        is_next(m.tickets, i),
    ensures
        has_queued(m.tickets),
        next_pos(m.tickets) == i,
{
    let p = next_pos(m.tickets);
    assert(is_next(m.tickets, p));
    let a = m.tickets[i];
    let b = m.tickets[p];
    assert(!a.before(b) && !b.before(a));
    if p < i {
        assert(m.tickets[p].id != m.tickets[i].id);
    } else if i < p {
        assert(m.tickets[i].id != m.tickets[p].id);
    }
}

/// Whether no ticket is for `page`.
pub open spec fn no_page(ts: Seq<Ticket>, page: usize) -> bool {
    forall|i: int| 0 <= i < ts.len() ==> (#[trigger] ts[i]).page != page
}

/// Whether no ticket has the number `id`.
pub open spec fn no_id(ts: Seq<Ticket>, id: u64) -> bool {
    forall|i: int| 0 <= i < ts.len() ==> (#[trigger] ts[i]).id != id
}

/// Whether every ticket has a number below `bound`.
pub open spec fn ids_below(ts: Seq<Ticket>, bound: u64) -> bool {
    forall|i: int| 0 <= i < ts.len() ==> (#[trigger] ts[i]).id < bound
}

/// Whether every ticket is a running decode that ends unheard.
pub open spec fn all_orphans(ts: Seq<Ticket>) -> bool {
    forall|i: int|
        0 <= i < ts.len() ==> (#[trigger] ts[i]).state is Running && ts[i].cancelled
            && !ts[i].again
}

/// Whether the flags of every ticket agree with where the ticket stands.
pub open spec fn flags_agree(ts: Seq<Ticket>) -> bool {
    &&& forall|i: int|
        0 <= i < ts.len() && !((#[trigger] ts[i]).state is Running) ==> !ts[i].cancelled
            && !ts[i].again
    &&& forall|i: int| 0 <= i < ts.len() && (#[trigger] ts[i]).again ==> ts[i].cancelled
}

/// Whether none of the tickets for `page` waits or runs.
pub open spec fn none_in_flight(ts: Seq<Ticket>, page: usize) -> bool {
    forall|i: int| 0 <= i < ts.len() && (#[trigger] ts[i]).page == page ==> !ts[i].in_flight()
}

/// What a rule leaves are tickets that were there before, for the same
/// pages and under the same numbers; it starts no decode.
pub proof fn lemma_thinned(ts: Seq<Ticket>, rule: Rule, page: usize, id: u64, bound: u64)
    ensures
        thinned(ts, rule).len() <= ts.len(),
        rule == Rule::Orphan ==> all_orphans(thinned(ts, rule)),
        all_orphans(ts) ==> all_orphans(thinned(ts, rule)),
        flags_agree(ts) ==> flags_agree(thinned(ts, rule)),
        no_page(ts, page) ==> no_page(thinned(ts, rule), page),
        no_id(ts, id) ==> no_id(thinned(ts, rule), id),
        ids_below(ts, bound) ==> ids_below(thinned(ts, rule), bound),
        none_in_flight(ts, page) ==> none_in_flight(thinned(ts, rule), page),
    decreases ts.len(),
{
    if ts.len() > 0 {
        let t = ts.drop_last();
        lemma_thinned(t, rule, page, id, bound);
        let o = thinned(ts, rule);
        let ot = thinned(t, rule);
        assert forall|i: int| 0 <= i < t.len() implies #[trigger] t[i] == ts[i] by {}
        assert forall|i: int| 0 <= i < ot.len() implies #[trigger] o[i] == ot[i] by {}
        let last = ts[ts.len() - 1];
        if no_page(ts, page) {
            assert(no_page(t, page));
            assert(last.page != page);
        }
        if no_id(ts, id) {
            assert(no_id(t, id));
            assert(last.id != id);
        }
        if ids_below(ts, bound) {
            assert(ids_below(t, bound));
            assert(last.id < bound);
        }
        if all_orphans(ts) {
            assert(all_orphans(t));
            assert(last.state is Running);
        }
        if flags_agree(ts) {
            assert(flags_agree(t));
            assert(!(last.state is Running) ==> !last.cancelled && !last.again);
            assert(last.again ==> last.cancelled);
        }
        if none_in_flight(ts, page) {
            assert(none_in_flight(t, page));
            assert(last.page == page ==> !last.in_flight());
        }
    }
}

/// Tickets for different pages, under different numbers.
pub open spec fn separate(ts: Seq<Ticket>) -> bool {
    &&& forall|i: int, j: int|
        0 <= i < j < ts.len() ==> (#[trigger] ts[i]).page != (#[trigger] ts[j]).page
    &&& forall|i: int, j: int|
        0 <= i < j < ts.len() ==> (#[trigger] ts[i]).id != (#[trigger] ts[j]).id
}

/// A rule keeps tickets for different pages apart.
proof fn lemma_thinned_separate(ts: Seq<Ticket>, rule: Rule)
    requires
        separate(ts),
    ensures
        separate(thinned(ts, rule)),
    decreases ts.len(),
{
    if ts.len() > 0 {
        let t = ts.drop_last();
        let last = ts.last();
        assert forall|i: int| 0 <= i < t.len() implies #[trigger] t[i] == ts[i] by {}
        assert(separate(t));
        lemma_thinned_separate(t, rule);
        assert(no_page(t, last.page) && no_id(t, last.id)) by {
            assert forall|i: int| 0 <= i < t.len() implies (#[trigger] t[i]).page != last.page
                && t[i].id != last.id by {
                assert(ts[i].page != ts[ts.len() - 1].page);
                assert(ts[i].id != ts[ts.len() - 1].id);
            }
        }
        lemma_thinned(t, rule, last.page, last.id, 0);
        let o = thinned(ts, rule);
        let ot = thinned(t, rule);
        assert forall|i: int| 0 <= i < ot.len() implies #[trigger] o[i] == ot[i] by {}
    }
}

/// A rule leaves the scheduler well formed.
proof fn lemma_thinned_wf(m: SchedulerModel, rule: Rule, accepting: bool, generation: u64)
    requires
        m.wf(),
        accepting == m.accepting || rule == Rule::Orphan,
    ensures
        (SchedulerModel { tickets: thinned(m.tickets, rule), accepting, generation, ..m }).wf(),
{
    assert(separate(m.tickets));
    assert(ids_below(m.tickets, m.next_id));
    assert(flags_agree(m.tickets));
    if !m.accepting {
        assert(all_orphans(m.tickets));
    }
    lemma_thinned_separate(m.tickets, rule);
    lemma_thinned(m.tickets, rule, 0, 0, m.next_id);
    let o = thinned(m.tickets, rule);
    assert(separate(o) && ids_below(o, m.next_id) && flags_agree(o));
}

/// Cancelling far prefetches leaves the scheduler well formed.
pub proof fn lemma_sweep_wf(m: SchedulerModel, center: usize, window: usize)
    requires
        m.wf(),
    ensures
        m.after_sweep(center, window).wf(),
{
    lemma_thinned_wf(m, Rule::Sweep { center, window }, m.accepting, m.generation);
}

/// A request leaves the scheduler well formed.
pub proof fn lemma_request_wf(m: SchedulerModel, page: usize, priority: Priority, cached: bool)
    requires
        m.wf(),
    ensures
        m.after_request(page, priority, cached).wf(),
{
    let n = m.after_request(page, priority, cached);
    if m.accepting && !cached {
        if has_page(m.tickets, page) {
            let i = page_pos(m.tickets, page);
            assert(0 <= i < m.tickets.len() && m.tickets[i].page == page);
            assert forall|a: int| 0 <= a < n.tickets.len() implies (#[trigger] n.tickets[a]).page
                == m.tickets[a].page by {}
        } else if m.next_id < u64::MAX {
            assert forall|a: int, b: int| 0 <= a < b < n.tickets.len() implies (
            #[trigger] n.tickets[a]).page != (#[trigger] n.tickets[b]).page && n.tickets[a].id
                != n.tickets[b].id by {
                assert(n.tickets[a] == m.tickets[a]);
                if b < m.tickets.len() {
                    assert(n.tickets[b] == m.tickets[b]);
                }
            }
        }
    }
}

/// Cancelling leaves the scheduler well formed.
pub proof fn lemma_cancel_wf(m: SchedulerModel, id: u64)
    requires
        m.wf(),
    ensures
        m.after_cancel(id).wf(),
{
    let n = m.after_cancel(id);
    if has_id(m.tickets, id) {
        let i = id_pos(m.tickets, id);
        assert(0 <= i < m.tickets.len() && m.tickets[i].id == id);
        if m.tickets[i].state is Queued {
            lemma_removed_wf(m, i);
        }
    }
}

/// Dropping a ticket leaves the scheduler well formed.
proof fn lemma_removed_wf(m: SchedulerModel, i: int)
    requires
        m.wf(),
        0 <= i < m.tickets.len(),
    ensures
        (SchedulerModel { tickets: m.tickets.remove(i), ..m }).wf(),
{
    let n = SchedulerModel { tickets: m.tickets.remove(i), ..m };
    assert forall|a: int| 0 <= a < n.tickets.len() implies #[trigger] n.tickets[a]
        == m.tickets[if a < i { a } else { a + 1 }] by {}
    assert forall|a: int, b: int| 0 <= a < b < n.tickets.len() implies (#[trigger] n.tickets[a]).page
        != (#[trigger] n.tickets[b]).page && n.tickets[a].id != n.tickets[b].id by {
        let sa = if a < i { a } else { a + 1 };
        let sb = if b < i { b } else { b + 1 };
        assert(n.tickets[a] == m.tickets[sa] && n.tickets[b] == m.tickets[sb]);
    }
}

/// Taking a job leaves the scheduler well formed.
pub proof fn lemma_start_wf(m: SchedulerModel)
    requires
        m.wf(),
    ensures
        m.after_start().wf(),
{
    let n = m.after_start();
    if has_queued(m.tickets) {
        lemma_has_next(m.tickets, m.tickets.len() as int);
        let i = next_pos(m.tickets);
        assert(is_next(m.tickets, i));
        assert forall|a: int| 0 <= a < n.tickets.len() implies (#[trigger] n.tickets[a]).page
            == m.tickets[a].page && n.tickets[a].id == m.tickets[a].id by {}
    }
}

/// Where tickets wait, one of them is served next.
proof fn lemma_has_next(ts: Seq<Ticket>, n: int)
    requires
        0 <= n <= ts.len(),
    ensures
        (exists|i: int| 0 <= i < n && (#[trigger] ts[i]).state is Queued) ==> exists|b: int|
            0 <= b < n && ts[b].state is Queued && forall|j: int|
                0 <= j < n && (#[trigger] ts[j]).state is Queued ==> !ts[j].before(ts[b]),
        n == ts.len() && has_queued(ts) ==> exists|b: int| is_next(ts, b),
    decreases n,
{
    if n > 0 {
        lemma_has_next(ts, n - 1);
        if exists|i: int| 0 <= i < n && (#[trigger] ts[i]).state is Queued {
            if exists|i: int| 0 <= i < n - 1 && (#[trigger] ts[i]).state is Queued {
                let b = choose|b: int|
                    0 <= b < n - 1 && ts[b].state is Queued && forall|j: int|
                        0 <= j < n - 1 && (#[trigger] ts[j]).state is Queued ==> !ts[j].before(
                            ts[b],
                        );
                if ts[n - 1].state is Queued && ts[n - 1].before(ts[b]) {
                    let c = n - 1;
                    assert(ts[c].state is Queued && forall|j: int|
                        0 <= j < n && (#[trigger] ts[j]).state is Queued ==> !ts[j].before(ts[c]));
                } else {
                    assert(ts[b].state is Queued && forall|j: int|
                        0 <= j < n && (#[trigger] ts[j]).state is Queued ==> !ts[j].before(ts[b]));
                }
            } else {
                let c = n - 1;
                assert(ts[c].state is Queued && forall|j: int|
                    0 <= j < n && (#[trigger] ts[j]).state is Queued ==> !ts[j].before(ts[c]));
            }
        }
    }
    if n == ts.len() && has_queued(ts) {
        let b = choose|b: int|
            0 <= b < n && ts[b].state is Queued && forall|j: int|
                0 <= j < n && (#[trigger] ts[j]).state is Queued ==> !ts[j].before(ts[b]);
        assert(is_next(ts, b));
    }
}

/// A decode that ends leaves the scheduler well formed.
pub proof fn lemma_complete_wf(
    m: SchedulerModel,
    id: u64,
    generation: u64,
    result: Result<DecodedPage, ErrorKind>,
)
    requires
        m.wf(),
    ensures
        m.after_complete(id, generation, result).wf(),
{
    let n = m.after_complete(id, generation, result);
    if m.runs(id) {
        let i = id_pos(m.tickets, id);
        assert(0 <= i < m.tickets.len() && m.tickets[i].id == id);
        lemma_removed_wf(m, i);
        assert forall|a: int| 0 <= a < n.tickets.len() && n.tickets.len() == m.tickets.len() implies (
        #[trigger] n.tickets[a]).page == m.tickets[a].page && n.tickets[a].id
            == m.tickets[a].id by {}
    }
}

/// A shutdown and a change of archive leave the scheduler well formed.
pub proof fn lemma_shutdown_wf(m: SchedulerModel)
    requires
        m.wf(),
    ensures
        m.after_shutdown().wf(),
        m.after_archive_change().wf(),
{
    lemma_thinned_wf(m, Rule::Orphan, false, m.generation);
    lemma_thinned_wf(m, Rule::Orphan, m.accepting, m.after_archive_change().generation);
}

/// The decode scheduler.
pub struct Scheduler {
    tickets: Vec<Ticket>,
    next_id: u64,
    generation: u64,
    accepting: bool,
}

impl View for Scheduler {
    type V = SchedulerModel;

    closed spec fn view(&self) -> SchedulerModel {
        SchedulerModel {
            tickets: self.tickets@,
            next_id: self.next_id,
            generation: self.generation,
            accepting: self.accepting,
        }
    }
}

impl Scheduler {
    /// What holds of every scheduler between two operations.
    pub open spec fn wf(&self) -> bool {
        self@.wf()
    }

    /// A scheduler that has seen nothing yet.
    pub fn new() -> (s: Scheduler)
        ensures
            s.wf(),
            s@ == SchedulerModel::fresh(),
    {
        Scheduler { tickets: Vec::new(), next_id: 0, generation: 0, accepting: true }
    }

    /// Where the ticket for `page` stands, if there is one.
    fn find_page(&self, page: usize) -> (r: Option<usize>)
        requires
            self.wf(),
        ensures
            r is Some == has_page(self@.tickets, page),
            r matches Some(i) ==> i == page_pos(self@.tickets, page) && i < self@.tickets.len()
                && self@.tickets[i as int].page == page,
    {
        let mut i: usize = 0;
        while i < self.tickets.len()
            invariant
                i <= self.tickets.len(),
                self.wf(),
                forall|j: int| 0 <= j < i ==> (#[trigger] self.tickets@[j]).page != page,
            decreases self.tickets.len() - i,
        {
            if self.tickets[i].page == page {
                proof {
                    lemma_page_pos(self@, page, i as int);
                }
                return Some(i);
            }
            i += 1;
        }
        None
    }

    /// Where the ticket numbered `id` stands, if there is one.
    fn find_id(&self, id: u64) -> (r: Option<usize>)
        requires
            self.wf(),
        ensures
            r is Some == has_id(self@.tickets, id),
            r matches Some(i) ==> i == id_pos(self@.tickets, id) && i < self@.tickets.len()
                && self@.tickets[i as int].id == id,
    {
        let mut i: usize = 0;
        while i < self.tickets.len()
            invariant
                i <= self.tickets.len(),
                self.wf(),
                forall|j: int| 0 <= j < i ==> (#[trigger] self.tickets@[j]).id != id,
            decreases self.tickets.len() - i,
        {
            if self.tickets[i].id == id {
                proof {
                    lemma_id_pos(self@, id, i as int);
                }
                return Some(i);
            }
            i += 1;
        }
        None
    }

    /// Asks for a decode of `page` at `priority`; `cached` says whether the
    /// page is in the decoded page cache. A page that has a ticket keeps
    /// it, at the more urgent of the two priorities; a page that failed is
    /// tried again.
    pub fn request(&mut self, page: usize, priority: Priority, cached: bool) -> (r: RequestOutcome)
        requires
            old(self).wf(),
        ensures
            final(self).wf(),
            final(self)@ == old(self)@.after_request(page, priority, cached),
            r == old(self)@.request_outcome(page, cached),
    {
        proof {
            lemma_request_wf(self@, page, priority, cached);
        }
        if !self.accepting {
            return RequestOutcome::Refused;
        }
        if cached {
            return RequestOutcome::Completed;
        }
        match self.find_page(page) {
            Some(i) => {
                let t = self.tickets[i];
                match t.state {
                    TicketState::Failed(_) => {
                        if self.next_id == u64::MAX {
                            return RequestOutcome::Refused;
                        }
                        let id = self.next_id;
                        self.tickets.set(
                            i,
                            Ticket {
                                id,
                                page,
                                priority,
                                state: TicketState::Queued,
                                cancelled: false,
                                again: false,
                            },
                        );
                        self.next_id = id + 1;
                        RequestOutcome::Pending(DecodeTicket { id, page })
                    },
                    TicketState::Queued => {
                        self.tickets.set(
                            i,
                            Ticket {
                                id: t.id,
                                page: t.page,
                                priority: t.priority.max(priority),
                                state: t.state,
                                cancelled: t.cancelled,
                                again: t.again,
                            },
                        );
                        RequestOutcome::Pending(DecodeTicket { id: t.id, page })
                    },
                    TicketState::Running => {
                        self.tickets.set(
                            i,
                            Ticket {
                                id: t.id,
                                page: t.page,
                                priority: t.priority.max(priority),
                                state: t.state,
                                cancelled: t.cancelled,
                                again: t.again || t.cancelled,
                            },
                        );
                        RequestOutcome::Pending(DecodeTicket { id: t.id, page })
                    },
                }
            },
            None => {
                if self.next_id == u64::MAX {
                    return RequestOutcome::Refused;
                }
                let id = self.next_id;
                self.tickets.push(
                    Ticket {
                        id,
                        page,
                        priority,
                        state: TicketState::Queued,
                        cancelled: false,
                        again: false,
                    },
                );
                self.next_id = id + 1;
                RequestOutcome::Pending(DecodeTicket { id, page })
            },
        }
    }

    /// Cancels a ticket: a waiting decode is dropped; a running one may
    /// still end, but its result is thrown away.
    pub fn cancel(&mut self, ticket: DecodeTicket)
        requires
            old(self).wf(),
        ensures
            final(self).wf(),
            final(self)@ == old(self)@.after_cancel(ticket.id),
    {
        proof {
            lemma_cancel_wf(self@, ticket.id);
        }
        match self.find_id(ticket.id) {
            Some(i) => {
                let t = self.tickets[i];
                match t.state {
                    TicketState::Queued => {
                        self.tickets.remove(i);
                    },
                    TicketState::Running => {
                        self.tickets.set(
                            i,
                            Ticket {
                                id: t.id,
                                page: t.page,
                                priority: t.priority,
                                state: t.state,
                                cancelled: true,
                                again: false,
                            },
                        );
                    },
                    TicketState::Failed(_) => {},
                }
            },
            None => {},
        }
    }

    /// The ticket under which a decode of `page` waits or runs, if any.
    pub fn ticket_for(&self, page: usize) -> (r: Option<Ticket>)
        requires
            self.wf(),
        ensures
            r is Some == has_page(self@.tickets, page),
            r matches Some(t) ==> t == self@.tickets[page_pos(self@.tickets, page)] && t.page
                == page,
    {
        match self.find_page(page) {
            Some(i) => Some(self.tickets[i]),
            None => None,
        }
    }

    /// Hands the most urgent waiting decode to a worker; among equally
    /// urgent ones, the oldest.
    pub fn next_job(&mut self) -> (r: Option<Job>)
        requires
            old(self).wf(),
        ensures
            final(self).wf(),
            final(self)@ == old(self)@.after_start(),
            r == old(self)@.next_job(),
    {
        proof {
            lemma_start_wf(self@);
        }
        let mut best: Option<usize> = None;
        let mut i: usize = 0;
        while i < self.tickets.len()
            invariant
                i <= self.tickets.len(),
                match best {
                    Some(b) => b < i && self.tickets@[b as int].state is Queued && forall|j: int|
                        0 <= j < i && (#[trigger] self.tickets@[j]).state is Queued
                            ==> !self.tickets@[j].before(self.tickets@[b as int]),
                    None => forall|j: int|
                        0 <= j < i ==> !((#[trigger] self.tickets@[j]).state is Queued),
                },
            decreases self.tickets.len() - i,
        {
            let t = self.tickets[i];
            match t.state {
                TicketState::Queued => {
                    match best {
                        Some(b) => {
                            let o = self.tickets[b];
                            if t.priority.level() > o.priority.level() || (t.priority.level()
                                == o.priority.level() && t.id < o.id) {
                                best = Some(i);
                            }
                        },
                        None => {
                            best = Some(i);
                        },
                    }
                },
                _ => {},
            }
            i += 1;
        }
        match best {
            Some(b) => {
                proof {
                    assert(is_next(self@.tickets, b as int));
                    lemma_next_pos(self@, b as int);
                }
                let t = self.tickets[b];
                self.tickets.set(
                    b,
                    Ticket {
                        id: t.id,
                        page: t.page,
                        priority: t.priority,
                        state: TicketState::Running,
                        cancelled: t.cancelled,
                        again: t.again,
                    },
                );
                Some(
                    Job {
                        ticket: DecodeTicket { id: t.id, page: t.page },
                        generation: self.generation,
                    },
                )
            },
            None => None,
        }
    }

    /// Takes the result of a decode that ended. The page comes back to be
    /// cached only if the decode was not cancelled and the archive is still
    /// the one it was started for; a failure stays on the ticket.
    pub fn complete(&mut self, job: Job, result: Result<DecodedPage, ErrorKind>) -> (r: Completion)
        requires
            old(self).wf(),
        ensures
            final(self).wf(),
            final(self)@ == old(self)@.after_complete(job.ticket.id, job.generation, result),
            r == old(self)@.completion(job.ticket.id, job.generation, result),
    {
        proof {
            lemma_complete_wf(self@, job.ticket.id, job.generation, result);
        }
        let i = match self.find_id(job.ticket.id) {
            Some(i) => i,
            None => {
                return Completion::Discarded;
            },
        };
        let t = self.tickets[i];
        match t.state {
            TicketState::Running => {},
            _ => {
                return Completion::Discarded;
            },
        }
        if t.cancelled || job.generation != self.generation {
            if t.again && self.accepting {
                self.tickets.set(
                    i,
                    Ticket {
                        id: t.id,
                        page: t.page,
                        priority: t.priority,
                        state: TicketState::Queued,
                        cancelled: false,
                        again: false,
                    },
                );
            } else {
                self.tickets.remove(i);
            }
            return Completion::Discarded;
        }
        match result {
            Ok(page) => {
                self.tickets.remove(i);
                Completion::Decoded(t.page, page)
            },
            Err(kind) => {
                self.tickets.set(
                    i,
                    Ticket {
                        id: t.id,
                        page: t.page,
                        priority: t.priority,
                        state: TicketState::Failed(kind),
                        cancelled: t.cancelled,
                        again: t.again,
                    },
                );
                Completion::Failed(t.page, kind)
            },
        }
    }

    /// Applies a rule to every ticket, and says for which pages it
    /// dropped or changed one.
    fn thin(&mut self, rule: Rule) -> (pages: Vec<usize>)
        ensures
            final(self).tickets@ == thinned(old(self).tickets@, rule),
            final(self).next_id == old(self).next_id,
            final(self).generation == old(self).generation,
            final(self).accepting == old(self).accepting,
            pages@ == affected(old(self).tickets@, rule),
    {
        let mut kept: Vec<Ticket> = Vec::new();
        let mut pages: Vec<usize> = Vec::new();
        let mut i: usize = 0;
        assert(self.tickets@.take(0) =~= Seq::empty());
        while i < self.tickets.len()
            invariant
                i <= self.tickets.len(),
                kept@ == thinned(self.tickets@.take(i as int), rule),
                pages@ == affected(self.tickets@.take(i as int), rule),
            decreases self.tickets.len() - i,
        {
            let t = self.tickets[i];
            assert(self.tickets@.take(i + 1).drop_last() =~= self.tickets@.take(i as int));
            assert(self.tickets@.take(i + 1).last() == t);
            let cancelled = Ticket {
                id: t.id,
                page: t.page,
                priority: t.priority,
                state: t.state,
                cancelled: true,
                again: false,
            };
            let outcome: Option<Ticket> = match rule {
                Rule::Orphan => match t.state {
                    TicketState::Running => Some(cancelled),
                    _ => None,
                },
                Rule::Sweep { center, window } => {
                    let is_far = (t.page > center && t.page - center > window) || (t.page
                        < center && center - t.page > window);
                    let is_prefetch = match t.priority {
                        Priority::Prefetch => true,
                        _ => false,
                    };
                    if is_prefetch && is_far {
                        match t.state {
                            TicketState::Queued => None,
                            TicketState::Running => Some(cancelled),
                            TicketState::Failed(_) => Some(t),
                        }
                    } else {
                        Some(t)
                    }
                },
            };
            assert(outcome == rule.apply(t));
            match outcome {
                Some(u) => {
                    if !(u.cancelled == t.cancelled && u.again == t.again) {
                        pages.push(t.page);
                    }
                    kept.push(u);
                },
                None => {
                    pages.push(t.page);
                },
            }
            i += 1;
        }
        assert(self.tickets@.take(i as int) =~= self.tickets@);
        self.tickets = kept;
        pages
    }

    /// Cancels the prefetches of pages further than `window` from
    /// `center`: those that wait are dropped, those that run end unheard.
    /// Says which pages they were for.
    pub fn cancel_far_prefetches(&mut self, center: usize, window: usize) -> (pages: Vec<usize>)
        requires
            old(self).wf(),
        ensures
            final(self).wf(),
            final(self)@ == old(self)@.after_sweep(center, window),
            pages@ == affected(old(self)@.tickets, Rule::Sweep { center, window }),
    {
        proof {
            lemma_sweep_wf(self@, center, window);
        }
        self.thin(Rule::Sweep { center, window })
    }

    /// Stops the scheduler: new requests are refused, waiting decodes are
    /// dropped, and running ones end unheard.
    pub fn shutdown(&mut self)
        requires
            old(self).wf(),
        ensures
            final(self).wf(),
            final(self)@ == old(self)@.after_shutdown(),
    {
        proof {
            lemma_shutdown_wf(self@);
        }
        self.thin(Rule::Orphan);
        self.accepting = false;
    }

    /// Begins a new generation for a new archive: waiting decodes and
    /// failures are dropped, and running decodes end unheard.
    pub fn archive_changed(&mut self)
        requires
            old(self).wf(),
        ensures
            final(self).wf(),
            final(self)@ == old(self)@.after_archive_change(),
    {
        proof {
            lemma_shutdown_wf(self@);
        }
        self.thin(Rule::Orphan);
        self.generation = if self.generation == u64::MAX {
            0
        } else {
            self.generation + 1
        };
    }

    /// Whether a decode of `page` waits or runs.
    pub fn in_flight(&self, page: usize) -> (b: bool)
        requires
            self.wf(),
        ensures
            b == self@.in_flight(page),
    {
        match self.find_page(page) {
            Some(i) => {
                assert forall|j: int|
                    0 <= j < self@.tickets.len() && (#[trigger] self@.tickets[j]).page
                        == page implies j == i by {
                    lemma_page_pos(self@, page, j);
                }
                match self.tickets[i].state {
                    TicketState::Failed(_) => false,
                    _ => {
                        assert(self@.tickets[i as int].in_flight());
                        true
                    },
                }
            },
            None => false,
        }
    }

    /// Why `page` failed, if it did and was not requested since.
    pub fn failure(&self, page: usize) -> (r: Option<ErrorKind>)
        requires
            self.wf(),
        ensures
            r == self@.failure(page),
    {
        match self.find_page(page) {
            Some(i) => match self.tickets[i].state {
                TicketState::Failed(kind) => Some(kind),
                _ => None,
            },
            None => None,
        }
    }

    /// Whether no decode waits or runs.
    pub fn is_idle(&self) -> (b: bool)
        ensures
            b == self@.idle(),
    {
        let mut i: usize = 0;
        while i < self.tickets.len()
            invariant
                i <= self.tickets.len(),
                forall|j: int| 0 <= j < i ==> !(#[trigger] self.tickets@[j]).in_flight(),
            decreases self.tickets.len() - i,
        {
            match self.tickets[i].state {
                TicketState::Failed(_) => {},
                _ => {
                    assert(self@.tickets[i as int].in_flight());
                    return false;
                },
            }
            i += 1;
        }
        true
    }

    /// Whether requests are accepted.
    pub fn is_accepting(&self) -> (b: bool)
        ensures
            b == self@.accepting,
    {
        self.accepting
    }

    /// The number of the archive generation.
    pub fn generation(&self) -> (g: u64)
        ensures
            g == self@.generation,
    {
        self.generation
    }

    /// The number of tickets.
    pub fn ticket_count(&self) -> (n: usize)
        ensures
            n == self@.tickets.len(),
    {
        self.tickets.len()
    }

    /// The `i`-th ticket, in the order in which the pages were first asked for.
    pub fn ticket(&self, i: usize) -> (t: Ticket)
        requires
            i < self@.tickets.len(),
        ensures
            t == self@.tickets[i as int],
    {
        self.tickets[i]
    }
}

/// Something that happens to a scheduler.
pub enum Event {
    Request { page: usize, priority: Priority, cached: bool },
    Cancel { id: u64 },
    Start,
    Complete { id: u64, generation: u64, result: Result<DecodedPage, ErrorKind> },
    Sweep { center: usize, window: usize },
    Shutdown,
    ArchiveChange,
}

/// The scheduler after one event.
pub open spec fn step(m: SchedulerModel, e: Event) -> SchedulerModel {
    match e {
        Event::Request { page, priority, cached } => m.after_request(page, priority, cached),
        Event::Cancel { id } => m.after_cancel(id),
        Event::Start => m.after_start(),
        Event::Complete { id, generation, result } => m.after_complete(id, generation, result),
        Event::Sweep { center, window } => m.after_sweep(center, window),
        Event::Shutdown => m.after_shutdown(),
        Event::ArchiveChange => m.after_archive_change(),
    }
}

/// The scheduler after a run of events.
pub open spec fn run(m: SchedulerModel, events: Seq<Event>) -> SchedulerModel
    decreases events.len(),
{
    if events.len() == 0 {
        m
    } else {
        step(run(m, events.drop_last()), events.last())
    }
}

/// The number of decodes of `page` that are running.
pub open spec fn running_count(ts: Seq<Ticket>, page: usize) -> nat
    decreases ts.len(),
{
    if ts.len() == 0 {
        0
    } else {
        running_count(ts.drop_last(), page) + if ts.last().page == page && ts.last().state
            is Running {
            1nat
        } else {
            0nat
        }
    }
}

/// The number of decodes of `page` that wait or run.
pub open spec fn in_flight_count(ts: Seq<Ticket>, page: usize) -> nat
    decreases ts.len(),
{
    if ts.len() == 0 {
        0
    } else {
        in_flight_count(ts.drop_last(), page) + if ts.last().page == page
            && ts.last().in_flight() {
            1nat
        } else {
            0nat
        }
    }
}

/// A page without a ticket has no decode counted.
proof fn lemma_count_none(ts: Seq<Ticket>, page: usize)
    requires
        no_page(ts, page),
    ensures
        running_count(ts, page) == 0,
        in_flight_count(ts, page) == 0,
    decreases ts.len(),
{
    if ts.len() > 0 {
        let t = ts.drop_last();
        assert forall|i: int| 0 <= i < t.len() implies #[trigger] t[i] == ts[i] by {}
        assert(ts[ts.len() - 1].page != page);
        lemma_count_none(t, page);
    }
}

/// Among tickets for different pages, a page counts at most once.
proof fn lemma_count_separate(ts: Seq<Ticket>, page: usize)
    requires
        separate(ts),
    ensures
        running_count(ts, page) <= in_flight_count(ts, page) <= 1,
    decreases ts.len(),
{
    if ts.len() > 0 {
        let t = ts.drop_last();
        assert forall|i: int| 0 <= i < t.len() implies #[trigger] t[i] == ts[i] by {}
        lemma_count_separate(t, page);
        if ts.last().page == page {
            assert(no_page(t, page)) by {
                assert forall|i: int| 0 <= i < t.len() implies (#[trigger] t[i]).page != page by {
                    assert(ts[i].page != ts[ts.len() - 1].page);
                }
            }
            lemma_count_none(t, page);
        }
    }
}

/// Every event leaves a well-formed scheduler well formed.
pub proof fn lemma_step_wf(m: SchedulerModel, e: Event)
    requires
        m.wf(),
    ensures
        step(m, e).wf(),
{
    match e {
        Event::Request { page, priority, cached } => lemma_request_wf(m, page, priority, cached),
        Event::Cancel { id } => lemma_cancel_wf(m, id),
        Event::Start => lemma_start_wf(m),
        Event::Complete { id, generation, result } => lemma_complete_wf(
            m,
            id,
            generation,
            result,
        ),
        Event::Sweep { center, window } => lemma_sweep_wf(m, center, window),
        Event::Shutdown => lemma_shutdown_wf(m),
        Event::ArchiveChange => lemma_shutdown_wf(m),
    }
}

/// Whatever is requested, cancelled, started and completed, in whatever
/// order: no page ever has more than one decode waiting or running.
pub proof fn lemma_one_decode_per_page(m: SchedulerModel, events: Seq<Event>, page: usize)
    requires
        m.wf(),
    ensures
        run(m, events).wf(),
        running_count(run(m, events).tickets, page) <= 1,
        in_flight_count(run(m, events).tickets, page) <= 1,
    decreases events.len(),
{
    if events.len() > 0 {
        lemma_one_decode_per_page(m, events.drop_last(), page);
        lemma_step_wf(run(m, events.drop_last()), events.last());
    }
    lemma_count_separate(run(m, events).tickets, page);
}

/// A shut down scheduler refuses every request and schedules nothing.
pub proof fn lemma_refuses_after_shutdown(m: SchedulerModel, page: usize, priority: Priority, cached: bool)
    requires
        m.wf(),
    ensures
        m.after_shutdown().request_outcome(page, cached) == RequestOutcome::Refused,
        m.after_shutdown().after_request(page, priority, cached) == m.after_shutdown(),
        m.after_shutdown().next_job() is None,
{
    lemma_shutdown_wf(m);
    let n = m.after_shutdown();
    if has_queued(n.tickets) {
        let i = choose|i: int| 0 <= i < n.tickets.len() && (#[trigger] n.tickets[i]).state is Queued;
        assert(n.tickets[i].state is Running);
    }
}

/// Taking a job starts no decode for a page that has none waiting or running.
pub proof fn lemma_start_in_flight(m: SchedulerModel, page: usize)
    requires
        m.wf(),
        none_in_flight(m.tickets, page),
    ensures
        none_in_flight(m.after_start().tickets, page),
{
    let n = m.after_start();
    if has_queued(m.tickets) {
        lemma_has_next(m.tickets, m.tickets.len() as int);
        let b = next_pos(m.tickets);
        assert(is_next(m.tickets, b));
        assert forall|i: int| 0 <= i < n.tickets.len() && (#[trigger] n.tickets[i]).page
            == page implies !n.tickets[i].in_flight() by {
            assert(m.tickets[i].page == page);
        }
    }
}

/// A request for one page starts no decode for another.
pub proof fn lemma_request_in_flight(
    m: SchedulerModel,
    page: usize,
    priority: Priority,
    cached: bool,
    other: usize,
)
    requires
        m.wf(),
        none_in_flight(m.tickets, other),
        other != page || cached,
    ensures
        none_in_flight(m.after_request(page, priority, cached).tickets, other),
        m.after_request(page, priority, cached).failure(other) == m.failure(other) || other
            == page,
{
    let n = m.after_request(page, priority, cached);
    if m.accepting && !cached {
        if has_page(m.tickets, page) {
            let i = page_pos(m.tickets, page);
            assert(0 <= i < m.tickets.len() && m.tickets[i].page == page);
            assert forall|j: int| 0 <= j < n.tickets.len() && (#[trigger] n.tickets[j]).page
                == other implies !n.tickets[j].in_flight() by {
                assert(m.tickets[j].page == other);
            }
        } else {
            assert forall|j: int| 0 <= j < n.tickets.len() && (#[trigger] n.tickets[j]).page
                == other implies !n.tickets[j].in_flight() by {
                if j < m.tickets.len() {
                    assert(m.tickets[j].page == other);
                }
            }
        }
        lemma_request_wf(m, page, priority, cached);
        if other != page {
            lemma_request_failure(m, page, priority, other);
        }
    }
}

/// A request for one page leaves what is known of the failure of another.
pub proof fn lemma_request_failure(m: SchedulerModel, page: usize, priority: Priority, other: usize)
    requires
        m.wf(),
        other != page,
    ensures
        m.after_request(page, priority, false).failure(other) == m.failure(other),
        has_page(m.after_request(page, priority, false).tickets, other) == has_page(
            m.tickets,
            other,
        ),
{
    let n = m.after_request(page, priority, false);
    lemma_request_wf(m, page, priority, false);
    if m.accepting {
        if has_page(m.tickets, page) {
            let i = page_pos(m.tickets, page);
            assert(0 <= i < m.tickets.len() && m.tickets[i].page == page);
            if has_page(m.tickets, other) {
                let j = page_pos(m.tickets, other);
                assert(0 <= j < m.tickets.len() && m.tickets[j].page == other);
                assert(n.tickets[j] == m.tickets[j]);
                lemma_page_pos(n, other, j);
            }
            if has_page(n.tickets, other) {
                let j = page_pos(n.tickets, other);
                assert(0 <= j < n.tickets.len() && n.tickets[j].page == other);
                assert(m.tickets[j].page == other);
                lemma_page_pos(m, other, j);
            }
        } else {
            if has_page(m.tickets, other) {
                let j = page_pos(m.tickets, other);
                assert(0 <= j < m.tickets.len() && m.tickets[j].page == other);
                assert(n.tickets[j] == m.tickets[j]);
                lemma_page_pos(n, other, j);
            }
            if has_page(n.tickets, other) {
                let j = page_pos(n.tickets, other);
                assert(0 <= j < n.tickets.len() && n.tickets[j].page == other);
                if j < m.tickets.len() {
                    assert(m.tickets[j] == n.tickets[j]);
                    lemma_page_pos(m, other, j);
                }
            }
        }
    }
}

/// A decode that ends starts no decode for a page that has none waiting
/// or running; and the page of a decode whose result is kept has no
/// ticket left.
pub proof fn lemma_complete_in_flight(
    m: SchedulerModel,
    id: u64,
    generation: u64,
    result: Result<DecodedPage, ErrorKind>,
    page: usize,
)
    requires
        m.wf(),
    ensures
        none_in_flight(m.tickets, page) ==> none_in_flight(
            m.after_complete(id, generation, result).tickets,
            page,
        ),
        m.completion(id, generation, result) matches Completion::Decoded(p, _) ==> no_page(
            m.after_complete(id, generation, result).tickets,
            p,
        ),
{
    let n = m.after_complete(id, generation, result);
    if m.runs(id) {
        let i = id_pos(m.tickets, id);
        assert(0 <= i < m.tickets.len() && m.tickets[i].id == id);
        if none_in_flight(m.tickets, page) {
            assert forall|j: int| 0 <= j < n.tickets.len() && (#[trigger] n.tickets[j]).page
                == page implies !n.tickets[j].in_flight() by {
                if n.tickets.len() == m.tickets.len() {
                    assert(m.tickets[j].page == page);
                } else {
                    let k = if j < i { j } else { j + 1 };
                    assert(n.tickets[j] == m.tickets[k]);
                }
            }
        }
        if m.completion(id, generation, result) is Decoded {
            let p = m.tickets[i].page;
            assert forall|j: int| 0 <= j < n.tickets.len() implies (#[trigger] n.tickets[j]).page
                != p by {
                let k = if j < i { j } else { j + 1 };
                assert(n.tickets[j] == m.tickets[k]);
                if k < i {
                    assert(m.tickets[k].page != m.tickets[i].page);
                } else {
                    assert(m.tickets[i].page != m.tickets[k].page);
                }
            }
        }
    }
}

/// Whether a ticket says that `page` failed with `kind`.
pub open spec fn fails_with(ts: Seq<Ticket>, page: usize, kind: ErrorKind) -> bool {
    exists|i: int|
        0 <= i < ts.len() && (#[trigger] ts[i]).page == page && ts[i].state == TicketState::Failed(
            kind,
        )
}

/// A page has failed with a kind exactly if its ticket says so.
pub proof fn lemma_failure(m: SchedulerModel, page: usize, kind: ErrorKind)
    requires
        m.wf(),
    ensures
        m.failure(page) == Some(kind) <==> fails_with(m.tickets, page, kind),
{
    if fails_with(m.tickets, page, kind) {
        let i = choose|i: int|
            0 <= i < m.tickets.len() && (#[trigger] m.tickets[i]).page == page
                && m.tickets[i].state == TicketState::Failed(kind);
        lemma_page_pos(m, page, i);
    }
    if m.failure(page) == Some(kind) {
        let i = page_pos(m.tickets, page);
        assert(0 <= i < m.tickets.len() && m.tickets[i].page == page);
    }
}

/// A rule neither makes a page fail nor makes a failure forgotten, but
/// for the rule that leaves running decodes only.
proof fn lemma_thinned_fails(ts: Seq<Ticket>, center: usize, window: usize, page: usize, kind: ErrorKind)
    ensures
        fails_with(thinned(ts, Rule::Sweep { center, window }), page, kind) == fails_with(
            ts,
            page,
            kind,
        ),
    decreases ts.len(),
{
    let rule = Rule::Sweep { center, window };
    if ts.len() > 0 {
        let t = ts.drop_last();
        let last = ts[ts.len() - 1];
        lemma_thinned_fails(t, center, window, page, kind);
        let o = thinned(ts, rule);
        let ot = thinned(t, rule);
        assert forall|i: int| 0 <= i < t.len() implies #[trigger] t[i] == ts[i] by {}
        assert forall|i: int| 0 <= i < ot.len() implies #[trigger] o[i] == ot[i] by {}
        let hit = last.page == page && last.state == TicketState::Failed(kind);
        if fails_with(ts, page, kind) {
            let i = choose|i: int|
                0 <= i < ts.len() && (#[trigger] ts[i]).page == page && ts[i].state
                    == TicketState::Failed(kind);
            if i < t.len() {
                assert(t[i].page == page);
                assert(fails_with(t, page, kind));
                let j = choose|j: int|
                    0 <= j < ot.len() && (#[trigger] ot[j]).page == page && ot[j].state
                        == TicketState::Failed(kind);
                assert(o[j].page == page);
            } else {
                assert(hit);
                assert(o[o.len() - 1].page == page);
            }
        }
        if fails_with(o, page, kind) {
            let j = choose|j: int|
                0 <= j < o.len() && (#[trigger] o[j]).page == page && o[j].state
                    == TicketState::Failed(kind);
            if j < ot.len() {
                assert(ot[j].page == page);
                assert(fails_with(ot, page, kind));
                let i = choose|i: int|
                    0 <= i < t.len() && (#[trigger] t[i]).page == page && t[i].state
                        == TicketState::Failed(kind);
                assert(ts[i].page == page);
            } else {
                assert(ts[ts.len() - 1].page == page);
            }
        }
    }
}

/// Cancelling far prefetches neither makes a page fail nor makes a
/// failure forgotten.
pub proof fn lemma_sweep_failure(m: SchedulerModel, center: usize, window: usize, page: usize)
    requires
        m.wf(),
    ensures
        m.after_sweep(center, window).failure(page) == m.failure(page),
{
    let n = m.after_sweep(center, window);
    lemma_sweep_wf(m, center, window);
    match m.failure(page) {
        Some(kind) => {
            lemma_failure(m, page, kind);
            lemma_thinned_fails(m.tickets, center, window, page, kind);
            lemma_failure(n, page, kind);
        },
        None => {
            match n.failure(page) {
                Some(kind) => {
                    lemma_failure(n, page, kind);
                    lemma_thinned_fails(m.tickets, center, window, page, kind);
                    lemma_failure(m, page, kind);
                },
                None => {},
            }
        },
    }
}

/// A request for a page that has not failed leaves it not failed.
pub proof fn lemma_request_own_failure(m: SchedulerModel, page: usize, priority: Priority)
    requires
        m.wf(),
        m.failure(page) is None,
    ensures
        m.after_request(page, priority, false).failure(page) is None,
{
    let n = m.after_request(page, priority, false);
    lemma_request_wf(m, page, priority, false);
    if m.accepting {
        if has_page(m.tickets, page) {
            let i = page_pos(m.tickets, page);
            assert(0 <= i < m.tickets.len() && m.tickets[i].page == page);
            assert(n.tickets[i].page == page);
            lemma_page_pos(n, page, i);
        } else if m.next_id < u64::MAX {
            let i = m.tickets.len() as int;
            assert(n.tickets[i].page == page);
            lemma_page_pos(n, page, i);
        }
    }
}

/// After a shutdown, and after a change of archive, the result of every
/// decode that was running is thrown away.
pub proof fn lemma_unheard(
    m: SchedulerModel,
    id: u64,
    generation: u64,
    result: Result<DecodedPage, ErrorKind>,
)
    requires
        m.wf(),
    ensures
        m.after_shutdown().completion(id, generation, result) is Discarded,
        m.after_archive_change().completion(id, generation, result) is Discarded,
{
    lemma_thinned(m.tickets, Rule::Orphan, 0, 0, 0);
    let o = orphaned(m.tickets);
    assert(all_orphans(o));
    if has_id(o, id) {
        let i = id_pos(o, id);
        assert(0 <= i < o.len() && o[i].id == id);
        assert(o[i].cancelled);
    }
}

/// Whether `after` has no decode waiting or running for a page that had
/// none in `before`, the page `but` left aside.
pub open spec fn starts_none(after: Seq<Ticket>, before: Seq<Ticket>, but: Option<usize>) -> bool {
    forall|p: usize| Some(p) != but && #[trigger] none_in_flight(before, p) ==> none_in_flight(after, p)
}

/// Taking a job, ending a decode and applying a rule start no decode; a
/// request starts none but for its own page. The page of a decode whose
/// result is kept has no ticket left.
pub proof fn lemma_starts_none(m: SchedulerModel)
    requires
        m.wf(),
    ensures
        starts_none(m.after_start().tickets, m.tickets, None),
        forall|id: u64, generation: u64, result: Result<DecodedPage, ErrorKind>|
            starts_none(
                #[trigger] m.after_complete(id, generation, result).tickets,
                m.tickets,
                None,
            ),
        forall|id: u64, generation: u64, result: Result<DecodedPage, ErrorKind>|
            (#[trigger] m.completion(id, generation, result)) matches Completion::Decoded(p, _)
                ==> none_in_flight(m.after_complete(id, generation, result).tickets, p),
        forall|rule: Rule| starts_none(#[trigger] thinned(m.tickets, rule), m.tickets, None),
        forall|page: usize, priority: Priority, cached: bool|
            starts_none(
                #[trigger] m.after_request(page, priority, cached).tickets,
                m.tickets,
                Some(page),
            ),
{
    assert forall|p: usize| #[trigger] none_in_flight(m.tickets, p) implies none_in_flight(
        m.after_start().tickets,
        p,
    ) by {
        lemma_start_in_flight(m, p);
    }
    assert forall|id: u64, generation: u64, result: Result<DecodedPage, ErrorKind>|
        starts_none(#[trigger] m.after_complete(id, generation, result).tickets, m.tickets, None) by {
        assert forall|p: usize| #[trigger] none_in_flight(m.tickets, p) implies none_in_flight(
            m.after_complete(id, generation, result).tickets,
            p,
        ) by {
            lemma_complete_in_flight(m, id, generation, result, p);
        }
    }
    assert forall|id: u64, generation: u64, result: Result<DecodedPage, ErrorKind>|
        (#[trigger] m.completion(id, generation, result)) matches Completion::Decoded(p, _)
            ==> none_in_flight(m.after_complete(id, generation, result).tickets, p) by {
        lemma_complete_in_flight(m, id, generation, result, 0);
    }
    assert forall|rule: Rule| starts_none(#[trigger] thinned(m.tickets, rule), m.tickets, None) by {
        assert forall|p: usize| #[trigger] none_in_flight(m.tickets, p) implies none_in_flight(
            thinned(m.tickets, rule),
            p,
        ) by {
            lemma_thinned(m.tickets, rule, p, 0, 0);
        }
    }
    assert forall|page: usize, priority: Priority, cached: bool|
        starts_none(
            #[trigger] m.after_request(page, priority, cached).tickets,
            m.tickets,
            Some(page),
        ) by {
        assert forall|p: usize|
            Some(p) != Some(page) && #[trigger] none_in_flight(m.tickets, p) implies none_in_flight(
            m.after_request(page, priority, cached).tickets,
            p,
        ) by {
            lemma_request_in_flight(m, page, priority, cached, p);
        }
    }
}

} // verus!
