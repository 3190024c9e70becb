//! The backend dispatcher and the per-caller front handle.
//!
//! One dispatcher exclusively owns the backend state. Callers submit
//! (request, result cell) pairs into a bounded FIFO inbox and get a ticket
//! back; the dispatcher pops requests in arrival order, applies each to the
//! backend, and resolves the request's cell with the outcome before pulling
//! the next one. That total order makes concurrent callers observe mutations
//! as if applied one at a time in receipt order.

use vstd::prelude::*;

use crate::result_cell::{abandon_step, init_cell, poll_step, CellState, ResultCell};
use crate::common_types::{Login, Password, RefreshTokenHash, Role, UserData};
use crate::storage::{
    lemma_run_model_snoc, lemma_run_responses_index, lemma_run_responses_len, run_model,
    run_responses, step_model, AddRoles, ChangePass, CreateUserData, DeleteRT, InnerStorage,
    LoadUserData, RemoveRoles, ReqV, StorageActor, StorageRequest, StorageResponse, StoreModel,
    StoreRT,
};

verus! {

/// Infrastructure faults, distinct from the domain errors a backend returns:
/// the request was rejected by policy, not logically failed.
#[derive(Clone, Copy, Debug, PartialEq, Eq, Structural)]
pub enum DispatchErr {
    /// The bounded inbox is full; unbounded growth is disallowed, so the
    /// submission is refused instead.
    QueueFull,
}

type CellEntry = (usize, ResultCell<StorageResponse>);

/// Some entry carries the ticket `t`.
pub open spec fn has_ticket(s: Seq<CellEntry>, t: usize) -> bool {
    exists|i: int| 0 <= i < s.len() && s[i].0 == t
}

/// The index of the entry carrying `t`; meaningful when tickets are unique.
pub open spec fn ticket_index(s: Seq<CellEntry>, t: usize) -> int {
    choose|i: int| 0 <= i < s.len() && s[i].0 == t
}

/// No two entries share a ticket.
pub open spec fn tickets_unique(s: Seq<CellEntry>) -> bool {
    forall|i: int, j: int| 0 <= i < j < s.len() ==> s[i].0 != s[j].0
}

/// The cell table read as a map from ticket to cell state.
pub open spec fn cells_map_of(s: Seq<CellEntry>) -> Map<usize, CellState<StorageResponse>> {
    Map::new(|t: usize| has_ticket(s, t), |t: usize| s[ticket_index(s, t)].1.model())
}

proof fn lemma_ticket_index(s: Seq<CellEntry>, t: usize)
    requires
        tickets_unique(s),
        has_ticket(s, t),
    ensures
        0 <= ticket_index(s, t) < s.len(),
        s[ticket_index(s, t)].0 == t,
        forall|j: int| 0 <= j < s.len() && s[j].0 == t ==> j == ticket_index(s, t),
{
    let i = ticket_index(s, t);
    assert(0 <= i < s.len() && s[i].0 == t);
    assert forall|j: int| 0 <= j < s.len() && s[j].0 == t implies j == i by {
        if j < i {
            assert(s[j].0 != s[i].0);
        } else if i < j {
            assert(s[i].0 != s[j].0);
        }
    }
}

proof fn lemma_cells_map_at(s: Seq<CellEntry>, i: int)
    requires
        tickets_unique(s),
        0 <= i < s.len(),
    ensures
        cells_map_of(s).contains_key(s[i].0),
        cells_map_of(s)[s[i].0] == s[i].1.model(),
{
    assert(has_ticket(s, s[i].0));
    lemma_ticket_index(s, s[i].0);
}

proof fn lemma_cells_map_push(s: Seq<CellEntry>, e: CellEntry)
    requires
        tickets_unique(s),
        !has_ticket(s, e.0),
    ensures
        tickets_unique(s.push(e)),
        cells_map_of(s.push(e)) == cells_map_of(s).insert(e.0, e.1.model()),
        forall|t: usize| #[trigger] has_ticket(s.push(e), t) <==> (has_ticket(s, t) || t == e.0),
{
    let p = s.push(e);
    let n = s.len() as int;
    assert(p[n] == e);
    assert forall|i: int, j: int| 0 <= i < j < p.len() implies p[i].0 != p[j].0 by {
        if j < n {
            assert(s[i].0 != s[j].0);
        } else {
            assert(p[i] == s[i]);
            if p[i].0 == e.0 {
                assert(has_ticket(s, e.0));
            }
        }
    }
    assert forall|t: usize| #[trigger] has_ticket(p, t) implies has_ticket(s, t) || t == e.0 by {
        let i = choose|i: int| 0 <= i < p.len() && p[i].0 == t;
        if i < n {
            assert(s[i].0 == t);
        }
    }
    assert forall|t: usize| has_ticket(s, t) implies #[trigger] has_ticket(p, t) by {
        let i = choose|i: int| 0 <= i < s.len() && s[i].0 == t;
        assert(p[i].0 == t);
    }
    assert(has_ticket(p, e.0)) by {
        assert(p[n].0 == e.0);
    }
    assert forall|t: usize| #[trigger] has_ticket(p, t) implies cells_map_of(p)[t]
        == cells_map_of(s).insert(e.0, e.1.model())[t] by {
        lemma_ticket_index(p, t);
        if t == e.0 {
            assert(ticket_index(p, t) == n);
        } else {
            lemma_ticket_index(s, t);
            let i = ticket_index(s, t);
            assert(p[i].0 == t);
            assert(ticket_index(p, t) == i);
            assert(p[i] == s[i]);
        }
    }
    assert(cells_map_of(p) =~= cells_map_of(s).insert(e.0, e.1.model()));
}

proof fn lemma_cells_map_update(s: Seq<CellEntry>, i: int, e: CellEntry)
    requires
        tickets_unique(s),
        0 <= i < s.len(),
        e.0 == s[i].0,
    ensures
        tickets_unique(s.update(i, e)),
        cells_map_of(s.update(i, e)) == cells_map_of(s).insert(e.0, e.1.model()),
        forall|t: usize| #[trigger] has_ticket(s.update(i, e), t) <==> has_ticket(s, t),
{
    let p = s.update(i, e);
    assert forall|a: int, b: int| 0 <= a < b < p.len() implies p[a].0 != p[b].0 by {
        assert(s[a].0 != s[b].0);
    }
    assert forall|t: usize| #[trigger] has_ticket(p, t) <==> has_ticket(s, t) by {
        if has_ticket(p, t) {
            let a = choose|a: int| 0 <= a < p.len() && p[a].0 == t;
            assert(s[a].0 == t);
        }
        if has_ticket(s, t) {
            let a = choose|a: int| 0 <= a < s.len() && s[a].0 == t;
            assert(p[a].0 == t);
        }
    }
    assert forall|t: usize| #[trigger] has_ticket(p, t) implies cells_map_of(p)[t]
        == cells_map_of(s).insert(e.0, e.1.model())[t] by {
        lemma_ticket_index(p, t);
        lemma_ticket_index(s, t);
        if t == e.0 {
            assert(p[i].0 == t);
            assert(ticket_index(p, t) == i);
        } else {
            let a = ticket_index(s, t);
            assert(a != i);
            assert(p[a].0 == t);
            assert(ticket_index(p, t) == a);
            assert(p[a] == s[a]);
        }
    }
    assert(has_ticket(p, e.0)) by {
        assert(p[i].0 == e.0);
    }
    assert(cells_map_of(p) =~= cells_map_of(s).insert(e.0, e.1.model()));
}

proof fn lemma_cells_map_remove(s: Seq<CellEntry>, i: int)
    requires
        tickets_unique(s),
        0 <= i < s.len(),
    ensures
        tickets_unique(s.remove(i)),
        cells_map_of(s.remove(i)) == cells_map_of(s).remove(s[i].0),
        forall|t: usize|
            #[trigger] has_ticket(s.remove(i), t) <==> (has_ticket(s, t) && t != s[i].0),
{
    let p = s.remove(i);
    assert forall|a: int, b: int| 0 <= a < b < p.len() implies p[a].0 != p[b].0 by {
        let a2 = if a < i { a } else { a + 1 };
        let b2 = if b < i { b } else { b + 1 };
        assert(p[a] == s[a2]);
        assert(p[b] == s[b2]);
        assert(s[a2].0 != s[b2].0);
    }
    assert forall|t: usize|
        #[trigger] has_ticket(p, t) <==> (has_ticket(s, t) && t != s[i].0) by {
        if has_ticket(p, t) {
            let a = choose|a: int| 0 <= a < p.len() && p[a].0 == t;
            let a2 = if a < i { a } else { a + 1 };
            assert(p[a] == s[a2]);
            assert(s[a2].0 == t);
            if t == s[i].0 {
                assert(a2 != i);
                assert(s[a2].0 != s[i].0);
            }
        }
        if has_ticket(s, t) && t != s[i].0 {
            let a = choose|a: int| 0 <= a < s.len() && s[a].0 == t;
            assert(a != i);
            let a2 = if a < i { a } else { a - 1 };
            assert(p[a2] == s[a]);
            assert(p[a2].0 == t);
        }
    }
    assert forall|t: usize| #[trigger] has_ticket(p, t) implies cells_map_of(p)[t]
        == cells_map_of(s).remove(s[i].0)[t] by {
        lemma_ticket_index(p, t);
        lemma_ticket_index(s, t);
        let a = ticket_index(p, t);
        let a2 = if a < i { a } else { a + 1 };
        assert(p[a] == s[a2]);
        assert(s[a2].0 == t);
        assert(ticket_index(s, t) == a2);
    }
    assert(cells_map_of(p) =~= cells_map_of(s).remove(s[i].0));
}

fn ticket_pending(v: &Vec<(usize, StorageRequest)>, t: usize) -> (r: bool)
    ensures
        r == (exists|j: int| 0 <= j < v@.len() && v@[j].0 == t),
{
    let mut i: usize = 0;
    while i < v.len()
        invariant
            i <= v@.len(),
            forall|j: int| 0 <= j < i ==> v@[j].0 != t,
        decreases v@.len() - i,
    {
        if v[i].0 == t {
            return true;
        }
        i += 1;
    }
    false
}

fn find_cell(v: &Vec<CellEntry>, t: usize) -> (r: Option<usize>)
    ensures
        match r {
            Some(i) => i < v@.len() && v@[i as int].0 == t,
            None => !has_ticket(v@, t),
        },
{
    let mut i: usize = 0;
    while i < v.len()
        invariant
            i <= v@.len(),
            forall|j: int| 0 <= j < i ==> v@[j].0 != t,
        decreases v@.len() - i,
    {
        if v[i].0 == t {
            return Some(i);
        }
        i += 1;
    }
    None
}

/// The single-owner executor. It alone holds the backend (through the
/// actor), the bounded inbox of pending (ticket, request) pairs in arrival
/// order, and one result cell per issued ticket. Every backend step is
/// verified free of panics, so no request can trap the executor mid-queue.
pub struct Dispatcher {
    actor: StorageActor,
    inbox: Vec<(usize, StorageRequest)>,
    cells: Vec<CellEntry>,
    next_ticket: usize,
    capacity: usize,
}

/// What a successful or refused submission does: on success a fresh ticket
/// with an empty cell is issued and the request joins the back of the queue;
/// on refusal (full inbox or exhausted tickets) nothing changes at all.
pub open spec fn submitted(
    d0: Dispatcher,
    d1: Dispatcher,
    rv: ReqV,
    r: Result<usize, DispatchErr>,
) -> bool {
    &&& d1.wf()
    &&& d1.model() == d0.model()
    &&& (r is Err <==> (d0.queue().len() >= d0.capacity_spec() || d0.next_ticket_spec()
        == usize::MAX))
    &&& match r {
        Ok(t) => {
            &&& t == d0.next_ticket_spec()
            &&& !d0.cells_model().contains_key(t)
            &&& d1.queue() == d0.queue().push(rv)
            &&& d1.queue_tickets() == d0.queue_tickets().push(t)
            &&& d1.cells_model() == d0.cells_model().insert(t, init_cell::<StorageResponse>())
            &&& d1.capacity_spec() == d0.capacity_spec()
        },
        Err(e) => {
            &&& e == DispatchErr::QueueFull
            &&& d1 == d0
        },
    }
}

impl Dispatcher {
    pub closed spec fn model(&self) -> StoreModel {
        self.actor.model()
    }

    /// Pending requests, in arrival order.
    pub closed spec fn queue(&self) -> Seq<ReqV> {
        Seq::new(self.inbox@.len(), |i: int| self.inbox@[i].1@)
    }

    /// The tickets of the pending requests, in the same order.
    pub closed spec fn queue_tickets(&self) -> Seq<usize> {
        Seq::new(self.inbox@.len(), |i: int| self.inbox@[i].0)
    }

    /// Every ticket ever issued, mapped to its cell's state.
    pub closed spec fn cells_model(&self) -> Map<usize, CellState<StorageResponse>> {
        cells_map_of(self.cells@)
    }

    pub closed spec fn capacity_spec(&self) -> usize {
        self.capacity
    }

    pub closed spec fn next_ticket_spec(&self) -> usize {
        self.next_ticket
    }

    pub closed spec fn wf(&self) -> bool {
        &&& self.actor.wf()
        &&& tickets_unique(self.cells@)
        &&& forall|i: int| 0 <= i < self.cells@.len() ==> (#[trigger] self.cells@[i].0)
            < self.next_ticket
        &&& forall|i: int, j: int|
            0 <= i < j < self.inbox@.len() ==> self.inbox@[i].0 != self.inbox@[j].0
        &&& forall|i: int|
            0 <= i < self.inbox@.len() ==> has_ticket(self.cells@, #[trigger] self.inbox@[i].0)
        &&& forall|i: int|
            0 <= i < self.inbox@.len() ==> (#[trigger] cells_map_of(self.cells@)[self.inbox@[i].0].value)
                is None && !cells_map_of(self.cells@)[self.inbox@[i].0].taken
        &&& forall|i: int| 0 <= i < self.inbox@.len() ==> (#[trigger] self.inbox@[i].1).wf()
    }

    /// A dispatcher taking exclusive ownership of a backend, with a bounded
    /// inbox of the given capacity.
    pub fn new(storage: InnerStorage, capacity: usize) -> (r: Self)
        requires
            storage.wf(),
        ensures
            r.wf(),
            r.model() == storage.model(),
            r.queue() == Seq::<ReqV>::empty(),
            r.queue_tickets() == Seq::<usize>::empty(),
            r.cells_model() == Map::<usize, CellState<StorageResponse>>::empty(),
            r.capacity_spec() == capacity,
            r.next_ticket_spec() == 0,
    {
        let r = Dispatcher {
            actor: StorageActor::new(storage),
            inbox: Vec::new(),
            cells: Vec::new(),
            next_ticket: 0,
            capacity,
        };
        proof {
            assert(r.queue() =~= Seq::<ReqV>::empty());
            assert(r.queue_tickets() =~= Seq::<usize>::empty());
            assert(cells_map_of(r.cells@) =~= Map::<usize, CellState<StorageResponse>>::empty());
        }
        r
    }

    /// Enqueue a request. On success the returned ticket's cell will receive
    /// exactly one response; when the bounded inbox is full (or no ticket is
    /// left), the submission is refused and nothing changes.
    pub fn submit(&mut self, req: StorageRequest) -> (r: Result<usize, DispatchErr>)
        requires
            old(self).wf(),
            req.wf(),
        ensures
            submitted(*old(self), *final(self), req@, r),
    {
        if self.inbox.len() >= self.capacity || self.next_ticket == usize::MAX {
            return Err(DispatchErr::QueueFull);
        }
        let ghost d0 = *self;
        let t = self.next_ticket;
        proof {
            assert(!has_ticket(self.cells@, t)) by {
                if has_ticket(self.cells@, t) {
                    let i = choose|i: int| 0 <= i < self.cells@.len() && self.cells@[i].0 == t;
                    assert(self.cells@[i].0 < self.next_ticket);
                }
            }
        }
        self.next_ticket = t + 1;
        self.inbox.push((t, req));
        let cell = ResultCell::<StorageResponse>::new();
        proof {
            lemma_cells_map_push(self.cells@, (t, cell));
        }
        self.cells.push((t, cell));
        proof {
            let ib = self.inbox@;
            let cs = self.cells@;
            let n0 = d0.inbox@.len() as int;
            assert forall|i: int| 0 <= i < n0 implies (#[trigger] d0.inbox@[i].0) != t by {
                assert(has_ticket(d0.cells@, d0.inbox@[i].0));
                let j = choose|j: int|
                    0 <= j < d0.cells@.len() && d0.cells@[j].0 == d0.inbox@[i].0;
                assert(d0.cells@[j].0 < t);
            }
            assert forall|i: int, j: int| 0 <= i < j < ib.len() implies ib[i].0 != ib[j].0 by {
                if j < n0 {
                    assert(d0.inbox@[i].0 != d0.inbox@[j].0);
                } else {
                    assert(ib[j].0 == t);
                    assert(ib[i] == d0.inbox@[i]);
                }
            }
            assert forall|i: int| 0 <= i < cs.len() implies (#[trigger] cs[i].0)
                < self.next_ticket by {
                if i < d0.cells@.len() {
                    assert(cs[i] == d0.cells@[i]);
                    assert(d0.cells@[i].0 < t);
                } else {
                    assert(cs[i].0 == t);
                }
            }
            assert forall|i: int| 0 <= i < ib.len() implies has_ticket(cs, #[trigger] ib[i].0)
                && cells_map_of(cs)[ib[i].0].value is None && !cells_map_of(cs)[ib[i].0].taken
                && ib[i].1.wf() by {
                if i < n0 {
                    assert(ib[i] == d0.inbox@[i]);
                    assert(has_ticket(d0.cells@, ib[i].0));
                    assert(ib[i].0 != t);
                    assert(cells_map_of(cs)[ib[i].0] == cells_map_of(d0.cells@)[ib[i].0]);
                } else {
                    assert(ib[i] == (t, req));
                    assert(cs[cs.len() - 1].0 == t);
                    assert(has_ticket(cs, t));
                    assert(cells_map_of(cs)[t] == cell.model());
                }
            }
            assert(self.queue() =~= d0.queue().push(req@));
            assert(self.queue_tickets() =~= d0.queue_tickets().push(t));
        }
        Ok(t)
    }

    /// Pop the oldest pending request, execute it against the backend, and
    /// resolve its cell with the response — unless the caller abandoned the
    /// cell, in which case the response is discarded without fault. Cells of
    /// other tickets are untouched. Returns whether anything was pending.
    pub fn process_next(&mut self) -> (did: bool)
        requires
            old(self).wf(),
        ensures
            final(self).wf(),
            did == (old(self).queue().len() > 0),
            !did ==> *final(self) == *old(self),
            did ==> ({
                let req = old(self).queue().first();
                let t = old(self).queue_tickets().first();
                let c0 = old(self).cells_model()[t];
                let c1 = final(self).cells_model()[t];
                let (m2, resp) = step_model(old(self).model(), req);
                &&& final(self).model() == m2
                &&& final(self).queue() == old(self).queue().drop_first()
                &&& final(self).queue_tickets() == old(self).queue_tickets().drop_first()
                &&& old(self).cells_model().contains_key(t)
                &&& final(self).cells_model().dom() == old(self).cells_model().dom()
                &&& forall|u: usize|
                    old(self).cells_model().contains_key(u) && u != t
                        ==> final(self).cells_model()[u] == old(self).cells_model()[u]
                &&& (!c0.abandoned ==> (c1.value matches Some(x) && x@ == resp) && !c1.taken
                    && !c1.abandoned && c1.wake_pending == (c0.wake_pending || c0.waiter))
                &&& (c0.abandoned ==> c1 == c0)
                &&& final(self).capacity_spec() == old(self).capacity_spec()
            }),
    {
        if self.inbox.len() == 0 {
            return false;
        }
        let ghost d0 = *self;
        let (t, req) = self.inbox.remove(0);
        proof {
            assert(self.queue() =~= d0.queue().drop_first());
            assert(self.queue_tickets() =~= d0.queue_tickets().drop_first());
            assert((t, req) == d0.inbox@[0]);
            assert(req.wf());
            assert(has_ticket(self.cells@, t));
            assert forall|i: int| 0 <= i < self.inbox@.len() implies (#[trigger] self.inbox@[i])
                == d0.inbox@[i + 1] by {}
        }
        let resp = self.actor.handle(req);
        match find_cell(&self.cells, t) {
            Some(i) => {
                let ghost cs = self.cells@;
                proof {
                    lemma_cells_map_at(cs, i as int);
                }
                let entry = &mut self.cells[i];
                let _stored = entry.1.set(resp);
                proof {
                    lemma_cells_map_update(cs, i as int, self.cells@[i as int]);
                    assert(cells_map_of(self.cells@) == cells_map_of(cs).insert(
                        t,
                        self.cells@[i as int].1.model(),
                    ));
                    assert forall|k: int|
                        0 <= k < self.cells@.len() implies (#[trigger] self.cells@[k].0)
                        < self.next_ticket by {
                        if k != i {
                            assert(self.cells@[k] == cs[k]);
                        }
                        assert(cs[k].0 < self.next_ticket);
                    }
                    assert forall|k: int| 0 <= k < self.inbox@.len() implies (
                    #[trigger] self.inbox@[k].0) != t by {
                        assert(self.inbox@[k] == d0.inbox@[k + 1]);
                        assert(d0.inbox@[0].0 != d0.inbox@[k + 1].0);
                    }
                    assert forall|k: int|
                        0 <= k < self.inbox@.len() implies has_ticket(
                        self.cells@,
                        #[trigger] self.inbox@[k].0,
                    ) && cells_map_of(self.cells@)[self.inbox@[k].0].value is None
                        && !cells_map_of(self.cells@)[self.inbox@[k].0].taken
                        && self.inbox@[k].1.wf() by {
                        assert(self.inbox@[k] == d0.inbox@[k + 1]);
                        assert(has_ticket(cs, self.inbox@[k].0));
                        assert(cells_map_of(self.cells@)[self.inbox@[k].0] == cells_map_of(
                            cs,
                        )[self.inbox@[k].0]);
                    }
                    assert(cells_map_of(self.cells@).dom() =~= cells_map_of(cs).dom());
                }
                true
            },
            None => {
                proof {
                    assert(false);
                }
                true
            },
        }
    }

    /// Drain the inbox: execute every pending request, oldest first. The
    /// backend ends exactly where running the queued requests one at a time,
    /// in submission order, leaves the model — linearizability — and each
    /// queued ticket's cell ends holding exactly the response its request
    /// earned, unless its consumer had abandoned it, in which case that
    /// response was discarded without fault. All other cells are untouched.
    pub fn run_queue(&mut self)
        requires
            old(self).wf(),
        ensures
            final(self).wf(),
            final(self).queue().len() == 0,
            final(self).queue_tickets().len() == 0,
            final(self).model() == run_model(old(self).model(), old(self).queue()),
            final(self).cells_model().dom() == old(self).cells_model().dom(),
            final(self).capacity_spec() == old(self).capacity_spec(),
            forall|u: usize|
                old(self).cells_model().contains_key(u) && !old(self).queue_tickets().contains(u)
                    ==> final(self).cells_model()[u] == old(self).cells_model()[u],
            forall|i: int|
                0 <= i < old(self).queue().len() ==> ({
                    let t = #[trigger] old(self).queue_tickets()[i];
                    let c0 = old(self).cells_model()[t];
                    let c1 = final(self).cells_model()[t];
                    &&& old(self).cells_model().contains_key(t)
                    &&& (!c0.abandoned ==> (c1.value matches Some(x) && x@ == run_responses(
                        old(self).model(),
                        old(self).queue(),
                    )[i]) && !c1.taken && !c1.abandoned)
                    &&& (c0.abandoned ==> c1 == c0)
                }),
    {
        let ghost q0 = old(self).queue();
        let ghost tk0 = old(self).queue_tickets();
        let ghost m0 = old(self).model();
        let ghost cm0 = old(self).cells_model();
        proof {
            lemma_run_responses_len(m0, q0);
        }
        let ghost n = q0.len() as int;
        let ghost mut k: int = 0;
        while self.inbox.len() != 0
            invariant
                self.wf(),
                n == q0.len(),
                tk0.len() == n,
                0 <= k <= n,
                self.queue() == q0.subrange(k, n),
                self.queue_tickets() == tk0.subrange(k, n),
                self.model() == run_model(m0, q0.subrange(0, k)),
                self.cells_model().dom() == cm0.dom(),
                self.capacity_spec() == old(self).capacity_spec(),
                forall|i: int, j: int| 0 <= i < j < n ==> tk0[i] != tk0[j],
                forall|u: usize|
                    cm0.contains_key(u) && !tk0.contains(u) ==> self.cells_model()[u] == cm0[u],
                forall|i: int|
                    k <= i < n ==> cm0.contains_key(#[trigger] tk0[i]) && self.cells_model()[tk0[i]]
                        == cm0[tk0[i]],
                forall|i: int|
                    0 <= i < k ==> ({
                        let t = #[trigger] tk0[i];
                        let c0 = cm0[t];
                        let c1 = self.cells_model()[t];
                        &&& cm0.contains_key(t)
                        &&& (!c0.abandoned ==> (c1.value matches Some(x) && x@ == run_responses(
                            m0,
                            q0,
                        )[i]) && !c1.taken && !c1.abandoned)
                        &&& (c0.abandoned ==> c1 == c0)
                    }),
            decreases self.queue().len(),
        {
            let ghost q = self.queue();
            let ghost tkq = self.queue_tickets();
            let ghost m = self.model();
            let _ = self.process_next();
            proof {
                let k0 = k;
                k = k + 1;
                lemma_run_model_snoc(m0, q0, k0);
                lemma_run_responses_index(m0, q0, k0);
                assert(q.first() == q0[k0]);
                assert(tkq.first() == tk0[k0]);
                assert(self.queue() == q.drop_first());
                assert(self.queue_tickets() == tkq.drop_first());
                assert(self.queue() =~= q0.subrange(k, n));
                assert(self.queue_tickets() =~= tk0.subrange(k, n));
                assert forall|u: usize|
                    cm0.contains_key(u) && !tk0.contains(u) implies self.cells_model()[u]
                    == cm0[u] by {
                    assert(u != tk0[k0]) by {
                        if u == tk0[k0] {
                            assert(tk0.contains(u)) by {
                                assert(tk0[k0] == u);
                            }
                        }
                    }
                }
                assert forall|i: int|
                    0 <= i < k implies ({
                        let t = #[trigger] tk0[i];
                        let c0 = cm0[t];
                        let c1 = self.cells_model()[t];
                        &&& cm0.contains_key(t)
                        &&& (!c0.abandoned ==> (c1.value matches Some(x) && x@ == run_responses(
                            m0,
                            q0,
                        )[i]) && !c1.taken && !c1.abandoned)
                        &&& (c0.abandoned ==> c1 == c0)
                    }) by {
                    if i < k0 {
                        assert(tk0[i] != tk0[k0]);
                    }
                }
            }
        }
        proof {
            assert(q0.subrange(0, n) =~= q0);
            assert(self.queue().len() == 0);
        }
    }

    /// Consumer side of a ticket's cell: take the response if it is there,
    /// registering the waiter first otherwise. An unknown ticket yields
    /// nothing and changes nothing.
    pub fn poll(&mut self, ticket: usize) -> (r: Option<StorageResponse>)
        requires
            old(self).wf(),
        ensures
            final(self).wf(),
            final(self).model() == old(self).model(),
            final(self).queue() == old(self).queue(),
            final(self).queue_tickets() == old(self).queue_tickets(),
            final(self).capacity_spec() == old(self).capacity_spec(),
            !old(self).cells_model().contains_key(ticket) ==> r is None && *final(self) == *old(
                self,
            ),
            old(self).cells_model().contains_key(ticket) ==> ({
                let (c1, rv) = poll_step(old(self).cells_model()[ticket]);
                &&& r == rv
                &&& final(self).cells_model() == old(self).cells_model().insert(ticket, c1)
            }),
    {
        match find_cell(&self.cells, ticket) {
            Some(i) => {
                let ghost cs = self.cells@;
                proof {
                    lemma_cells_map_at(cs, i as int);
                }
                let entry = &mut self.cells[i];
                let r = entry.1.poll();
                proof {
                    lemma_cells_map_update(cs, i as int, self.cells@[i as int]);
                    assert forall|k: int|
                        0 <= k < self.cells@.len() implies (#[trigger] self.cells@[k].0)
                        < self.next_ticket by {
                        if k != i {
                            assert(self.cells@[k] == cs[k]);
                        }
                        assert(cs[k].0 < self.next_ticket);
                    }
                    assert forall|k: int|
                        0 <= k < self.inbox@.len() implies has_ticket(
                        self.cells@,
                        #[trigger] self.inbox@[k].0,
                    ) && cells_map_of(self.cells@)[self.inbox@[k].0].value is None
                        && !cells_map_of(self.cells@)[self.inbox@[k].0].taken by {
                        assert(has_ticket(cs, self.inbox@[k].0));
                        if self.inbox@[k].0 != ticket {
                            assert(cells_map_of(self.cells@)[self.inbox@[k].0] == cells_map_of(
                                cs,
                            )[self.inbox@[k].0]);
                        } else {
                            assert(cells_map_of(cs)[ticket].value is None && !cells_map_of(
                                cs,
                            )[ticket].taken);
                            assert(cells_map_of(self.cells@)[ticket] == self.cells@[i as int].1.model());
                        }
                    }
                }
                r
            },
            None => None,
        }
    }

    /// Consumer side: walk away from a ticket before (or after) resolution.
    /// The dispatcher's later `set` for it will be discarded without fault.
    pub fn abandon(&mut self, ticket: usize)
        requires
            old(self).wf(),
        ensures
            final(self).wf(),
            final(self).model() == old(self).model(),
            final(self).queue() == old(self).queue(),
            final(self).queue_tickets() == old(self).queue_tickets(),
            final(self).capacity_spec() == old(self).capacity_spec(),
            !old(self).cells_model().contains_key(ticket) ==> *final(self) == *old(self),
            old(self).cells_model().contains_key(ticket) ==> final(self).cells_model() == old(
                self,
            ).cells_model().insert(ticket, abandon_step(old(self).cells_model()[ticket])),
    {
        match find_cell(&self.cells, ticket) {
            Some(i) => {
                let ghost cs = self.cells@;
                proof {
                    lemma_cells_map_at(cs, i as int);
                }
                let entry = &mut self.cells[i];
                entry.1.abandon();
                proof {
                    lemma_cells_map_update(cs, i as int, self.cells@[i as int]);
                    assert forall|k: int|
                        0 <= k < self.cells@.len() implies (#[trigger] self.cells@[k].0)
                        < self.next_ticket by {
                        if k != i {
                            assert(self.cells@[k] == cs[k]);
                        }
                        assert(cs[k].0 < self.next_ticket);
                    }
                    assert forall|k: int|
                        0 <= k < self.inbox@.len() implies has_ticket(
                        self.cells@,
                        #[trigger] self.inbox@[k].0,
                    ) && cells_map_of(self.cells@)[self.inbox@[k].0].value is None
                        && !cells_map_of(self.cells@)[self.inbox@[k].0].taken by {
                        assert(has_ticket(cs, self.inbox@[k].0));
                        if self.inbox@[k].0 != ticket {
                            assert(cells_map_of(self.cells@)[self.inbox@[k].0] == cells_map_of(
                                cs,
                            )[self.inbox@[k].0]);
                        } else {
                            assert(cells_map_of(cs)[ticket].value is None && !cells_map_of(
                                cs,
                            )[ticket].taken);
                            assert(cells_map_of(self.cells@)[ticket] == self.cells@[i as int].1.model());
                        }
                    }
                }
            },
            None => {},
        }
    }
}

impl Dispatcher {
    /// Reclaim a ticket's cell once the consumer is done with it (after
    /// taking the response or abandoning the wait). Both sides must have
    /// released it: while the request is still pending — the producer's side
    /// not yet done — the cell stays, and `false` says so. An unknown ticket
    /// also yields `false`.
    pub fn release(&mut self, ticket: usize) -> (r: bool)
        requires
            old(self).wf(),
        ensures
            final(self).wf(),
            final(self).model() == old(self).model(),
            final(self).queue() == old(self).queue(),
            final(self).queue_tickets() == old(self).queue_tickets(),
            final(self).capacity_spec() == old(self).capacity_spec(),
            r == (old(self).cells_model().contains_key(ticket) && !old(
                self,
            ).queue_tickets().contains(ticket)),
            r ==> final(self).cells_model() == old(self).cells_model().remove(ticket),
            !r ==> *final(self) == *old(self),
    {
        let pending = ticket_pending(&self.inbox, ticket);
        proof {
            assert(self.queue_tickets().contains(ticket) <==> (exists|j: int|
                0 <= j < self.inbox@.len() && self.inbox@[j].0 == ticket)) by {
                if self.queue_tickets().contains(ticket) {
                    let j = choose|j: int|
                        0 <= j < self.queue_tickets().len() && self.queue_tickets()[j] == ticket;
                    assert(self.inbox@[j].0 == ticket);
                }
                if exists|j: int| 0 <= j < self.inbox@.len() && self.inbox@[j].0 == ticket {
                    let j = choose|j: int| 0 <= j < self.inbox@.len() && self.inbox@[j].0 == ticket;
                    assert(self.queue_tickets()[j] == ticket);
                }
            }
        }
        if pending {
            return false;
        }
        match find_cell(&self.cells, ticket) {
            Some(i) => {
                let ghost cs = self.cells@;
                proof {
                    lemma_cells_map_at(cs, i as int);
                    lemma_cells_map_remove(cs, i as int);
                }
                let _entry = self.cells.remove(i);
                proof {
                    assert forall|k: int|
                        0 <= k < self.cells@.len() implies (#[trigger] self.cells@[k].0)
                        < self.next_ticket by {
                        let k2 = if k < i as int { k } else { k + 1 };
                        assert(self.cells@[k] == cs[k2]);
                        assert(cs[k2].0 < self.next_ticket);
                    }
                    assert forall|k: int|
                        0 <= k < self.inbox@.len() implies has_ticket(
                        self.cells@,
                        #[trigger] self.inbox@[k].0,
                    ) && cells_map_of(self.cells@)[self.inbox@[k].0].value is None
                        && !cells_map_of(self.cells@)[self.inbox@[k].0].taken by {
                        assert(self.inbox@[k].0 != ticket);
                        assert(has_ticket(cs, self.inbox@[k].0));
                        assert(cells_map_of(self.cells@)[self.inbox@[k].0] == cells_map_of(
                            cs,
                        )[self.inbox@[k].0]);
                    }
                }
                true
            },
            None => false,
        }
    }
}

/// Per-caller façade: builds the typed request for each capability-contract
/// operation and submits it, handing back the ticket whose cell will carry
/// the outcome.
pub struct FrontHandle {}

impl FrontHandle {
    pub fn new() -> (r: Self) {
        FrontHandle {}
    }

    pub fn create_user(&self, d: &mut Dispatcher, data: UserData) -> (r: Result<
        usize,
        DispatchErr,
    >)
        requires
            old(d).wf(),
            data.wf(),
        ensures
            submitted(*old(d), *final(d), ReqV::CreateUser(data@), r),
    {
        d.submit(StorageRequest::CreateUser(CreateUserData { data }))
    }

    pub fn load_user(&self, d: &mut Dispatcher, login: Login) -> (r: Result<usize, DispatchErr>)
        requires
            old(d).wf(),
        ensures
            submitted(*old(d), *final(d), ReqV::LoadUser(login@), r),
    {
        d.submit(StorageRequest::LoadUser(LoadUserData { login }))
    }

    pub fn change_pass(
        &self,
        d: &mut Dispatcher,
        login: Login,
        new_pass: Password,
        old_pass: Password,
    ) -> (r: Result<usize, DispatchErr>)
        requires
            old(d).wf(),
        ensures
            submitted(
                *old(d),
                *final(d),
                ReqV::ChangePassword { login: login@, new_pass: new_pass@, old_pass: old_pass@ },
                r,
            ),
    {
        d.submit(StorageRequest::ChangePassword(ChangePass { login, new_pass, old_pass }))
    }

    pub fn add_roles(&self, d: &mut Dispatcher, login: Login, roles_to_add: Vec<Role>) -> (r:
        Result<usize, DispatchErr>)
        requires
            old(d).wf(),
        ensures
            submitted(
                *old(d),
                *final(d),
                ReqV::AddRoles { login: login@, roles: roles_to_add.deep_view().to_set() },
                r,
            ),
    {
        d.submit(StorageRequest::AddRoles(AddRoles { login, roles_to_add }))
    }

    pub fn remove_roles(&self, d: &mut Dispatcher, login: Login, roles_to_remove: Vec<Role>) -> (r:
        Result<usize, DispatchErr>)
        requires
            old(d).wf(),
        ensures
            submitted(
                *old(d),
                *final(d),
                ReqV::RemoveRoles { login: login@, roles: roles_to_remove.deep_view().to_set() },
                r,
            ),
    {
        d.submit(StorageRequest::RemoveRoles(RemoveRoles { login, roles_to_remove }))
    }

    pub fn store_rt(&self, d: &mut Dispatcher, token: RefreshTokenHash) -> (r: Result<
        usize,
        DispatchErr,
    >)
        requires
            old(d).wf(),
        ensures
            submitted(*old(d), *final(d), ReqV::StoreRefreshToken(token@), r),
    {
        d.submit(StorageRequest::StoreRefreshToken(StoreRT { token }))
    }

    pub fn delete_rt(&self, d: &mut Dispatcher, token: RefreshTokenHash) -> (r: Result<
        usize,
        DispatchErr,
    >)
        requires
            old(d).wf(),
        ensures
            submitted(*old(d), *final(d), ReqV::DeleteRefreshToken(token@), r),
    {
        d.submit(StorageRequest::DeleteRefreshToken(DeleteRT { token }))
    }
}

} // verus!
