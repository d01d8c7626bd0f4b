//! The per-connection multiplexer: which requests are open, what state their
//! child process is in, and which response each event of a child gives.
//!
//! The I/O (launching, reading pipes, waiting, killing) happens around it; it
//! is told what happened and answers with the response to send, if any.
use vstd::prelude::*;

use crate::codec::{exit_code_spec, OutputStreamType, ResponseView, SpawnResponse, EXIT_SENTINEL};

verus! {

/// What is known of one open request's child process.
#[derive(Clone, Copy, Debug, PartialEq, Eq, Structural)]
pub struct ChildState {
    pub stdout_open: bool,
    pub stderr_open: bool,
    /// The wire exit code, once the process has terminated.
    pub exit_status: Option<i32>,
}

/// An event on a connection, as a mathematical value.
pub ghost enum EventView {
    /// A decoded request asks to be accepted.
    Admit { id: u32 },
    /// The request's process could not be launched.
    LaunchFailed { id: u32 },
    /// A chunk was read from one of the process's pipes.
    Output { id: u32, source: OutputStreamType, data: Seq<u8> },
    /// One of the process's pipes reached end of stream (or failed).
    StreamEnd { id: u32, source: OutputStreamType },
    /// The process terminated, with its exit code if it had one.
    Exited { id: u32, code: Option<i32> },
    /// The client connection closed.
    Closed,
}

/// The request an event belongs to; none for a closed connection, which
/// concerns them all.
pub open spec fn event_id(e: EventView) -> Option<u32> {
    match e {
        EventView::Admit { id } => Some(id),
        EventView::LaunchFailed { id } => Some(id),
        EventView::Output { id, .. } => Some(id),
        EventView::StreamEnd { id, .. } => Some(id),
        EventView::Exited { id, .. } => Some(id),
        EventView::Closed => None,
    }
}

/// Whether event `e` concerns request `id`.
pub open spec fn concerns(e: EventView, id: u32) -> bool {
    match event_id(e) {
        Some(i) => i == id,
        None => true,
    }
}

/// The request a response belongs to.
pub open spec fn response_id(r: ResponseView) -> u32 {
    match r {
        ResponseView::Output { request_id, .. } => request_id,
        ResponseView::Exit { request_id, .. } => request_id,
    }
}

/// A freshly launched child: both pipes open, still running.
pub open spec fn running() -> ChildState {
    ChildState { stdout_open: true, stderr_open: true, exit_status: None }
}

pub open spec fn is_open(c: ChildState, source: OutputStreamType) -> bool {
    match source {
        OutputStreamType::Stdout => c.stdout_open,
        OutputStreamType::Stderr => c.stderr_open,
    }
}

pub open spec fn close_stream(c: ChildState, source: OutputStreamType) -> ChildState {
    match source {
        OutputStreamType::Stdout => ChildState { stdout_open: false, ..c },
        OutputStreamType::Stderr => ChildState { stderr_open: false, ..c },
    }
}

/// A child is finished once it has terminated and both pipes have ended: it
/// then leaves the table and its exit response is sent.
pub open spec fn settle(id: u32, c: ChildState) -> (Option<ChildState>, Option<ResponseView>) {
    if !c.stdout_open && !c.stderr_open && c.exit_status is Some {
        (None, Some(ResponseView::Exit { request_id: id, status: c.exit_status->0 }))
    } else {
        (Some(c), None)
    }
}

/// How one request's entry (`None` when it is not open) and the response for
/// it follow from an event that concerns it.
pub open spec fn child_step(c: Option<ChildState>, id: u32, e: EventView) -> (
    Option<ChildState>,
    Option<ResponseView>,
) {
    match e {
        EventView::Admit { .. } => match c {
            Some(_) => (c, None),
            None => (Some(running()), None),
        },
        EventView::LaunchFailed { .. } => match c {
            Some(_) => (None, Some(ResponseView::Exit { request_id: id, status: EXIT_SENTINEL })),
            None => (None, None),
        },
        EventView::Output { source, data, .. } => match c {
            Some(s) => if is_open(s, source) && data.len() > 0 {
                (c, Some(ResponseView::Output { request_id: id, source, data }))
            } else {
                (c, None)
            },
            None => (None, None),
        },
        EventView::StreamEnd { source, .. } => match c {
            Some(s) => settle(id, close_stream(s, source)),
            None => (None, None),
        },
        EventView::Exited { code, .. } => match c {
            Some(s) => settle(id, ChildState { exit_status: Some(exit_code_spec(code)), ..s }),
            None => (None, None),
        },
        EventView::Closed => (None, None),
    }
}

/// The entry of `id` in a table.
pub open spec fn entry(m: Map<u32, ChildState>, id: u32) -> Option<ChildState> {
    if m.contains_key(id) {
        Some(m[id])
    } else {
        None
    }
}

/// A table with the entry of `id` set to `c`.
pub open spec fn with_entry(m: Map<u32, ChildState>, id: u32, c: Option<ChildState>) -> Map<
    u32,
    ChildState,
> {
    match c {
        Some(s) => m.insert(id, s),
        None => m.remove(id),
    }
}

/// The table after an event, and the response it gives. A closed connection
/// empties the table (every child still in it is killed) and answers nothing.
pub open spec fn step(m: Map<u32, ChildState>, e: EventView) -> (
    Map<u32, ChildState>,
    Option<ResponseView>,
) {
    match event_id(e) {
        None => (Map::empty(), None),
        Some(id) => {
            let (c, r) = child_step(entry(m, id), id, e);
            (with_entry(m, id, c), r)
        },
    }
}

pub open spec fn opt_seq(r: Option<ResponseView>) -> Seq<ResponseView> {
    match r {
        Some(x) => seq![x],
        None => Seq::empty(),
    }
}

/// The table after a sequence of events, and the responses sent, in order.
pub open spec fn run(m: Map<u32, ChildState>, es: Seq<EventView>) -> (
    Map<u32, ChildState>,
    Seq<ResponseView>,
)
    decreases es.len(),
{
    if es.len() == 0 {
        (m, Seq::empty())
    } else {
        let (m1, out) = run(m, es.drop_last());
        let (m2, r) = step(m1, es.last());
        (m2, out + opt_seq(r))
    }
}

/// One request's entry after a sequence of events, and the responses sent for it.
pub open spec fn run_child(c: Option<ChildState>, id: u32, es: Seq<EventView>) -> (
    Option<ChildState>,
    Seq<ResponseView>,
)
    decreases es.len(),
{
    if es.len() == 0 {
        (c, Seq::empty())
    } else {
        let (c1, out) = run_child(c, id, es.drop_last());
        let (c2, r) = child_step(c1, id, es.last());
        (c2, out + opt_seq(r))
    }
}

/// The events of `es` that concern request `id`, in order.
pub open spec fn events_for(es: Seq<EventView>, id: u32) -> Seq<EventView>
    decreases es.len(),
{
    if es.len() == 0 {
        Seq::empty()
    } else if concerns(es.last(), id) {
        events_for(es.drop_last(), id).push(es.last())
    } else {
        events_for(es.drop_last(), id)
    }
}

/// The responses of `out` that belong to request `id`, in order.
pub open spec fn responses_for(out: Seq<ResponseView>, id: u32) -> Seq<ResponseView>
    decreases out.len(),
{
    if out.len() == 0 {
        Seq::empty()
    } else if response_id(out.last()) == id {
        responses_for(out.drop_last(), id).push(out.last())
    } else {
        responses_for(out.drop_last(), id)
    }
}

/// How many times `es` asks for request `id` to be accepted.
pub open spec fn admissions(es: Seq<EventView>, id: u32) -> nat
    decreases es.len(),
{
    if es.len() == 0 {
        0
    } else if es.last() == (EventView::Admit { id }) {
        admissions(es.drop_last(), id) + 1
    } else {
        admissions(es.drop_last(), id)
    }
}


/// Rejection of a request whose id is still open on the connection.
#[derive(Clone, Copy, Debug, PartialEq, Eq, Structural)]
pub struct DuplicateRequestId {
    pub id: u32,
}

#[derive(Clone, Copy, Debug)]
struct Slot {
    id: u32,
    state: ChildState,
}

spec fn lookup(s: Seq<Slot>, id: u32) -> Option<ChildState>
    decreases s.len(),
{
    if s.len() == 0 {
        None
    } else if s.last().id == id {
        Some(s.last().state)
    } else {
        lookup(s.drop_last(), id)
    }
}

spec fn unique_ids(s: Seq<Slot>) -> bool {
    forall|i: int, j: int| 0 <= i < s.len() && 0 <= j < s.len() && i != j ==> s[i].id != s[j].id
}

proof fn lemma_lookup(s: Seq<Slot>, id: u32)
    requires
        unique_ids(s),
    ensures
        forall|j: int| 0 <= j < s.len() && #[trigger] s[j].id == id ==> lookup(s, id) == Some(s[j].state),
        (forall|j: int| 0 <= j < s.len() ==> #[trigger] s[j].id != id) ==> lookup(s, id) is None,
    decreases s.len(),
{
    if s.len() > 0 {
        let t = s.drop_last();
        assert(unique_ids(t));
        lemma_lookup(t, id);
        assert forall|j: int| 0 <= j < s.len() && #[trigger] s[j].id == id implies lookup(s, id) == Some(s[j].state) by {
            if j < s.len() - 1 {
                assert(s[s.len() - 1].id != id);
                assert(t[j] == s[j]);
            }
        }
        if forall|j: int| 0 <= j < s.len() ==> #[trigger] s[j].id != id {
            assert(s[s.len() - 1].id != id);
            assert forall|j: int| 0 <= j < t.len() implies #[trigger] t[j].id != id by {
                assert(t[j] == s[j]);
            }
        }
    }
}

spec fn table(s: Seq<Slot>) -> Map<u32, ChildState> {
    Map::new(|id: u32| lookup(s, id) is Some, |id: u32| lookup(s, id)->0)
}

proof fn lemma_push(s: Seq<Slot>, x: Slot)
    requires
        unique_ids(s),
        forall|j: int| 0 <= j < s.len() ==> #[trigger] s[j].id != x.id,
    ensures
        unique_ids(s.push(x)),
        table(s.push(x)) == table(s).insert(x.id, x.state),
{
    let t = s.push(x);
    assert(t.drop_last() == s);
    assert(table(t) =~= table(s).insert(x.id, x.state));
}

proof fn lemma_update(s: Seq<Slot>, i: int, x: Slot)
    requires
        unique_ids(s),
        0 <= i < s.len(),
        s[i].id == x.id,
    ensures
        unique_ids(s.update(i, x)),
        table(s.update(i, x)) == table(s).insert(x.id, x.state),
{
    let t = s.update(i, x);
    assert(unique_ids(t));
    assert forall|k: u32| #[trigger] lookup(t, k) == entry(table(s).insert(x.id, x.state), k) by {
        lemma_lookup(s, k);
        lemma_lookup(t, k);
        if k == x.id {
            assert(t[i].id == k);
        } else if exists|j: int| 0 <= j < s.len() && #[trigger] s[j].id == k {
            let j = choose|j: int| 0 <= j < s.len() && #[trigger] s[j].id == k;
            assert(t[j] == s[j]);
        } else {
            assert forall|j: int| 0 <= j < t.len() implies #[trigger] t[j].id != k by {
                if j != i {
                    assert(t[j] == s[j]);
                }
            }
        }
    }
    assert(table(t) =~= table(s).insert(x.id, x.state));
}

proof fn lemma_remove(s: Seq<Slot>, i: int)
    requires
        unique_ids(s),
        0 <= i < s.len(),
    ensures
        unique_ids(s.remove(i)),
        table(s.remove(i)) == table(s).remove(s[i].id),
{
    let t = s.remove(i);
    let id = s[i].id;
    assert forall|a: int, b: int| 0 <= a < t.len() && 0 <= b < t.len() && a != b implies t[a].id != t[b].id by {
        let a2 = if a < i { a } else { a + 1 };
        let b2 = if b < i { b } else { b + 1 };
        assert(t[a] == s[a2]);
        assert(t[b] == s[b2]);
    }
    assert forall|k: u32| #[trigger] lookup(t, k) == entry(table(s).remove(id), k) by {
        lemma_lookup(s, k);
        lemma_lookup(t, k);
        if exists|j: int| 0 <= j < t.len() && #[trigger] t[j].id == k {
            let j = choose|j: int| 0 <= j < t.len() && #[trigger] t[j].id == k;
            let j2 = if j < i { j } else { j + 1 };
            assert(t[j] == s[j2]);
            assert(s[j2].id == k);
        } else {
            if k != id {
                assert forall|j: int| 0 <= j < s.len() implies #[trigger] s[j].id != k by {
                    if j < i {
                        assert(t[j] == s[j]);
                    } else if j > i {
                        assert(t[j - 1] == s[j]);
                    }
                }
            }
        }
    }
    assert(table(t) =~= table(s).remove(id));
}

/// The open requests of one connection, each with its child's state.
pub struct Multiplexer {
    slots: Vec<Slot>,
}

impl View for Multiplexer {
    type V = Map<u32, ChildState>;

    closed spec fn view(&self) -> Map<u32, ChildState> {
        table(self.slots@)
    }
}

/// The response, if any, as a mathematical value.
pub open spec fn opt_view(r: Option<SpawnResponse>) -> Option<ResponseView> {
    match r {
        Some(x) => Some(x@),
        None => None,
    }
}

impl Multiplexer {
    /// The table is well formed: no request id is in it twice.
    pub closed spec fn wf(&self) -> bool {
        unique_ids(self.slots@)
    }

    proof fn lemma_entry(&self, id: u32)
        requires
            self.wf(),
        ensures
            entry(self@, id) == lookup(self.slots@, id),
            forall|j: int| 0 <= j < self.slots@.len() && #[trigger] self.slots@[j].id == id
                ==> entry(self@, id) == Some(self.slots@[j].state),
            (forall|j: int| 0 <= j < self.slots@.len() ==> #[trigger] self.slots@[j].id != id)
                ==> entry(self@, id) is None,
    {
        lemma_lookup(self.slots@, id);
    }

    /// A connection with no open request.
    pub fn new() -> (r: Self)
        ensures
            r.wf(),
            r@ == Map::<u32, ChildState>::empty(),
    {
        let r = Multiplexer { slots: Vec::new() };
        assert(r@ =~= Map::<u32, ChildState>::empty());
        r
    }

    fn find(&self, id: u32) -> (r: Option<usize>)
        requires
            self.wf(),
        ensures
            r matches Some(i) ==> i < self.slots@.len() && self.slots@[i as int].id == id,
            r is None ==> forall|j: int| 0 <= j < self.slots@.len() ==> #[trigger] self.slots@[j].id != id,
            r matches Some(i) ==> entry(self@, id) == Some(self.slots@[i as int].state),
            r is None ==> entry(self@, id) is None,
    {
        proof {
            self.lemma_entry(id);
        }
        let mut i: usize = 0;
        while i < self.slots.len()
            invariant
                self.wf(),
                i <= self.slots@.len(),
                forall|j: int| 0 <= j < i ==> #[trigger] self.slots@[j].id != id,
            decreases self.slots@.len() - i,
        {
            if self.slots[i].id == id {
                proof {
                    self.lemma_entry(id);
                    assert(self.slots@[i as int].id == id);
                }
                return Some(i);
            }
            i = i + 1;
        }
        proof {
            self.lemma_entry(id);
        }
        None
    }

    /// Number of open requests.
    pub fn len(&self) -> (r: usize)
        requires
            self.wf(),
        ensures
            r == self@.len(),
    {
        proof {
            self.lemma_dom_len();
        }
        self.slots.len()
    }

    proof fn lemma_dom_len(&self)
        requires
            self.wf(),
        ensures
            self@.dom().finite(),
            self@.len() == self.slots@.len(),
    {
        let ids = self.slots@.map_values(|x: Slot| x.id);
        assert forall|k: u32| self@.dom().contains(k) <==> ids.to_set().contains(k) by {
            self.lemma_entry(k);
            if self@.dom().contains(k) {
                let j = choose|j: int| 0 <= j < self.slots@.len() && #[trigger] self.slots@[j].id == k;
                assert(ids[j] == k);
            }
            if ids.to_set().contains(k) {
                let j = choose|j: int| 0 <= j < ids.len() && ids[j] == k;
                assert(self.slots@[j].id == k);
            }
        }
        assert(self@.dom() =~= ids.to_set());
        assert(ids.no_duplicates());
        ids.unique_seq_to_set();
    }

    /// Sets the entry at index `i` (the entry of `id`) to `c`, or, when `c`
    /// is finished, removes it and gives the exit response.
    fn settle_at(&mut self, i: usize, id: u32, c: ChildState) -> (r: Option<SpawnResponse>)
        requires
            old(self).wf(),
            i < old(self).slots@.len(),
            old(self).slots@[i as int].id == id,
        ensures
            final(self).wf(),
            (final(self)@, opt_view(r)) == ({
                let (c2, resp) = settle(id, c);
                (with_entry(old(self)@, id, c2), resp)
            }),
    {
        if !c.stdout_open && !c.stderr_open && c.exit_status.is_some() {
            proof {
                lemma_remove(self.slots@, i as int);
            }
            self.slots.remove(i);
            let status = match c.exit_status {
                Some(code) => code,
                None => EXIT_SENTINEL,
            };
            Some(SpawnResponse::ChildExit { request_id: id, status })
        } else {
            proof {
                lemma_update(self.slots@, i as int, Slot { id, state: c });
            }
            self.slots.set(i, Slot { id, state: c });
            None
        }
    }

    /// Admits request `id`: it becomes open with a running child, unless it
    /// is open already, in which case it is rejected and nothing changes.
    pub fn accept(&mut self, id: u32) -> (r: Result<(), DuplicateRequestId>)
        requires
            old(self).wf(),
        ensures
            final(self).wf(),
            final(self)@ == step(old(self)@, EventView::Admit { id }).0,
            r is Err <==> old(self)@.contains_key(id),
            r matches Err(e) ==> e.id == id,
            r is Err ==> final(self)@ == old(self)@,
    {
        match self.find(id) {
            Some(_) => {
                proof {
                    assert(with_entry(old(self)@, id, entry(old(self)@, id)) =~= old(self)@);
                }
                Err(DuplicateRequestId { id })
            },
            None => {
                proof {
                    lemma_push(self.slots@, Slot { id, state: ChildState { stdout_open: true, stderr_open: true, exit_status: None } });
                }
                self.slots.push(Slot { id, state: ChildState { stdout_open: true, stderr_open: true, exit_status: None } });
                Ok(())
            },
        }
    }

    /// The process of request `id` could not be launched: the request is
    /// closed with an exit response carrying the sentinel code.
    pub fn launch_failed(&mut self, id: u32) -> (r: Option<SpawnResponse>)
        requires
            old(self).wf(),
        ensures
            final(self).wf(),
            (final(self)@, opt_view(r)) == step(old(self)@, EventView::LaunchFailed { id }),
    {
        match self.find(id) {
            Some(i) => {
                proof {
                    lemma_remove(self.slots@, i as int);
                }
                self.slots.remove(i);
                Some(SpawnResponse::ChildExit { request_id: id, status: EXIT_SENTINEL })
            },
            None => {
                proof {
                    assert(with_entry(old(self)@, id, None) =~= old(self)@);
                }
                None
            },
        }
    }

    /// A chunk read from pipe `source` of request `id`'s process: it is sent
    /// on when the request is open, that pipe has not ended, and the chunk is
    /// not empty.
    pub fn child_output(&self, id: u32, source: OutputStreamType, data: Vec<u8>) -> (r: Option<SpawnResponse>)
        requires
            self.wf(),
        ensures
            (self@, opt_view(r)) == step(self@, EventView::Output { id, source, data: data@ }),
    {
        match self.find(id) {
            Some(i) => {
                let c = self.slots[i].state;
                proof {
                    assert(with_entry(self@, id, Some(c)) =~= self@);
                }
                let open = match source {
                    OutputStreamType::Stdout => c.stdout_open,
                    OutputStreamType::Stderr => c.stderr_open,
                };
                if open && data.len() > 0 {
                    Some(SpawnResponse::ChildOutput { request_id: id, source, data })
                } else {
                    None
                }
            },
            None => {
                proof {
                    assert(with_entry(self@, id, None) =~= self@);
                }
                None
            },
        }
    }

    /// Pipe `source` of request `id`'s process reached end of stream.
    pub fn stream_ended(&mut self, id: u32, source: OutputStreamType) -> (r: Option<SpawnResponse>)
        requires
            old(self).wf(),
        ensures
            final(self).wf(),
            (final(self)@, opt_view(r)) == step(old(self)@, EventView::StreamEnd { id, source }),
    {
        match self.find(id) {
            Some(i) => {
                let c = self.slots[i].state;
                let c2 = match source {
                    OutputStreamType::Stdout => ChildState { stdout_open: false, ..c },
                    OutputStreamType::Stderr => ChildState { stderr_open: false, ..c },
                };
                self.settle_at(i, id, c2)
            },
            None => {
                proof {
                    assert(with_entry(old(self)@, id, None) =~= old(self)@);
                }
                None
            },
        }
    }

    /// Request `id`'s process terminated, with `code` if it had an exit code.
    pub fn child_exited(&mut self, id: u32, code: Option<i32>) -> (r: Option<SpawnResponse>)
        requires
            old(self).wf(),
        ensures
            final(self).wf(),
            (final(self)@, opt_view(r)) == step(old(self)@, EventView::Exited { id, code }),
    {
        match self.find(id) {
            Some(i) => {
                let c = self.slots[i].state;
                let status = crate::codec::exit_code(code);
                self.settle_at(i, id, ChildState { exit_status: Some(status), ..c })
            },
            None => {
                proof {
                    assert(with_entry(old(self)@, id, None) =~= old(self)@);
                }
                None
            },
        }
    }

    /// The connection closed: every open request is dropped, and their ids
    /// are returned so that their processes can be killed.
    pub fn shutdown(&mut self) -> (r: Vec<u32>)
        requires
            old(self).wf(),
        ensures
            final(self).wf(),
            final(self)@ == step(old(self)@, EventView::Closed).0,
            r@.to_set() == old(self)@.dom(),
            r@.no_duplicates(),
    {
        let mut ids: Vec<u32> = Vec::new();
        let mut i: usize = 0;
        while i < self.slots.len()
            invariant
                self.wf(),
                i <= self.slots@.len(),
                ids@.len() == i,
                forall|j: int| 0 <= j < i ==> #[trigger] ids@[j] == self.slots@[j].id,
            decreases self.slots@.len() - i,
        {
            ids.push(self.slots[i].id);
            i = i + 1;
        }
        proof {
            assert forall|k: u32| ids@.to_set().contains(k) <==> self@.dom().contains(k) by {
                self.lemma_entry(k);
                if ids@.to_set().contains(k) {
                    let j = choose|j: int| 0 <= j < ids@.len() && ids@[j] == k;
                    assert(self.slots@[j].id == k);
                }
                if self@.dom().contains(k) {
                    let j = choose|j: int| 0 <= j < self.slots@.len() && #[trigger] self.slots@[j].id == k;
                    assert(ids@[j] == k);
                }
            }
            assert(ids@.to_set() =~= self@.dom());
            assert forall|a: int, b: int| 0 <= a < ids@.len() && 0 <= b < ids@.len() && a != b implies ids@[a] != ids@[b] by {
                assert(ids@[a] == self.slots@[a].id);
                assert(ids@[b] == self.slots@[b].id);
            }
        }
        self.slots.clear();
        proof {
            assert(self@ =~= Map::<u32, ChildState>::empty());
        }
        ids
    }
}

} // verus!
