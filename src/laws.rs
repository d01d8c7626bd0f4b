//! Properties of the multiplexer over whole sequences of events.
use vstd::prelude::*;

use crate::codec::{OutputStreamType, ResponseView};
use crate::mux::{
    admissions, running, child_step, concerns, entry, event_id, events_for, opt_seq, response_id,
    responses_for, run, run_child, step, with_entry, ChildState, EventView,
};

verus! {

proof fn lemma_child_step_tags(c: Option<ChildState>, id: u32, e: EventView)
    ensures
        child_step(c, id, e).1 matches Some(r) ==> response_id(r) == id,
        child_step(c, id, e).1 matches Some(r) ==> (r is Exit <==> child_step(c, id, e).0 is None
            && c is Some),
        c is None && !(e is Admit) ==> child_step(c, id, e) == (None::<ChildState>, None::<ResponseView>),
{
}

proof fn lemma_responses_for_append(out: Seq<ResponseView>, r: Option<ResponseView>, id: u32)
    ensures
        responses_for(out + opt_seq(r), id) == (match r {
            Some(x) => if response_id(x) == id {
                responses_for(out, id).push(x)
            } else {
                responses_for(out, id)
            },
            None => responses_for(out, id),
        }),
{
    match r {
        Some(x) => {
            assert((out + opt_seq(r)).drop_last() =~= out);
        },
        None => {
            assert(out + opt_seq(r) =~= out);
        },
    }
}

proof fn lemma_events_for(es: Seq<EventView>, id: u32)
    ensures
        forall|k: int| 0 <= k < events_for(es, id).len() ==> concerns(#[trigger] events_for(es, id)[k], id),
        admissions(events_for(es, id), id) == admissions(es, id),
    decreases es.len(),
{
    if es.len() > 0 {
        let t = es.drop_last();
        lemma_events_for(t, id);
        if concerns(es.last(), id) {
            let f = events_for(t, id).push(es.last());
            assert(f.drop_last() == events_for(t, id));
            assert forall|k: int| 0 <= k < f.len() implies concerns(#[trigger] f[k], id) by {
                if k < f.len() - 1 {
                    assert(f[k] == events_for(t, id)[k]);
                }
            }
        }
    }
}

/// What happens to one request depends only on the events that concern it:
/// its entry and the responses sent for it are those of its own events run
/// alone.
pub proof fn lemma_run_projects(m: Map<u32, ChildState>, es: Seq<EventView>, id: u32)
    ensures
        entry(run(m, es).0, id) == run_child(entry(m, id), id, events_for(es, id)).0,
        responses_for(run(m, es).1, id) == run_child(entry(m, id), id, events_for(es, id)).1,
    decreases es.len(),
{
    if es.len() > 0 {
        let t = es.drop_last();
        let e = es.last();
        lemma_run_projects(m, t, id);
        let (m1, out) = run(m, t);
        lemma_responses_for_append(out, step(m1, e).1, id);
        match event_id(e) {
            None => {
                assert(events_for(es, id).drop_last() == events_for(t, id));
                let o1 = run_child(entry(m, id), id, events_for(t, id)).1;
                assert(o1 =~= o1 + opt_seq(None));
                assert(out =~= out + opt_seq(None));
            },
            Some(i) => {
                lemma_child_step_tags(entry(m1, i), i, e);
                if i == id {
                    assert(events_for(es, id).drop_last() == events_for(t, id));
                    let c1 = run_child(entry(m, id), id, events_for(t, id)).0;
                    let o1 = run_child(entry(m, id), id, events_for(t, id)).1;
                    match child_step(c1, id, e).1 {
                        Some(x) => assert(o1.push(x) =~= o1 + opt_seq(Some(x))),
                        None => assert(o1 =~= o1 + opt_seq(None)),
                    }
                }
            },
        }
    }
}

/// Requests do not disturb one another: whatever events of other requests are
/// interleaved with a request's own, the responses sent for it, and so the
/// order of the chunks of each of its output streams, stay the same.
pub proof fn lemma_interleaving_independent(
    m1: Map<u32, ChildState>,
    es1: Seq<EventView>,
    m2: Map<u32, ChildState>,
    es2: Seq<EventView>,
    id: u32,
)
    requires
        entry(m1, id) == entry(m2, id),
        events_for(es1, id) == events_for(es2, id),
    ensures
        responses_for(run(m1, es1).1, id) == responses_for(run(m2, es2).1, id),
        entry(run(m1, es1).0, id) == entry(run(m2, es2).0, id),
{
    lemma_run_projects(m1, es1, id);
    lemma_run_projects(m2, es2, id);
}

proof fn lemma_child_exit_last(id: u32, es: Seq<EventView>)
    requires
        admissions(es, id) <= 1,
        forall|k: int| 0 <= k < es.len() ==> concerns(#[trigger] es[k], id),
    ensures
        ({
            let (c, out) = run_child(None, id, es);
            &&& forall|k: int| 0 <= k < out.len() && (#[trigger] out[k]) is Exit ==> k == out.len() - 1
            &&& out.len() > 0 && out.last() is Exit ==> c is None && admissions(es, id) >= 1
            &&& c is Some ==> admissions(es, id) >= 1
        }),
    decreases es.len(),
{
    if es.len() > 0 {
        let t = es.drop_last();
        let e = es.last();
        assert forall|k: int| 0 <= k < t.len() implies concerns(#[trigger] t[k], id) by {
            assert(t[k] == es[k]);
        }
        assert(concerns(es[es.len() - 1], id));
        lemma_child_exit_last(id, t);
        let (c1, out1) = run_child(None, id, t);
        lemma_child_step_tags(c1, id, e);
        let (c2, r) = child_step(c1, id, e);
        let out = out1 + opt_seq(r);
        if out1.len() > 0 && out1.last() is Exit {
            assert(!(e is Admit));
            assert(out =~= out1);
        } else {
            assert forall|k: int| 0 <= k < out.len() && (#[trigger] out[k]) is Exit implies k == out.len() - 1 by {
                if k < out1.len() {
                    assert(out[k] == out1[k]);
                    assert(k == out1.len() - 1);
                }
            }
        }
    }
}

/// A request is accepted at most once in `es` and was not open before: among
/// the responses sent for it, an exit response comes last, so there is at
/// most one, and no output follows it.
pub proof fn lemma_exit_is_last(m: Map<u32, ChildState>, es: Seq<EventView>, id: u32)
    requires
        !m.contains_key(id),
        admissions(es, id) <= 1,
    ensures
        forall|k: int|
            0 <= k < responses_for(run(m, es).1, id).len() && (#[trigger] responses_for(
                run(m, es).1,
                id,
            )[k]) is Exit ==> k == responses_for(run(m, es).1, id).len() - 1,
{
    lemma_run_projects(m, es, id);
    lemma_events_for(es, id);
    lemma_child_exit_last(id, events_for(es, id));
}

/// After the connection closes nothing more is sent: a table emptied by a
/// close stays empty and silent under any events that accept no request.
pub proof fn lemma_silent_after_close(m: Map<u32, ChildState>, es: Seq<EventView>)
    requires
        forall|k: int| 0 <= k < es.len() ==> !(#[trigger] es[k] is Admit),
    ensures
        run(step(m, EventView::Closed).0, es) == (Map::<u32, ChildState>::empty(), Seq::<ResponseView>::empty()),
    decreases es.len(),
{
    if es.len() > 0 {
        let t = es.drop_last();
        assert forall|k: int| 0 <= k < t.len() implies !(#[trigger] t[k] is Admit) by {
            assert(t[k] == es[k]);
        }
        lemma_silent_after_close(m, t);
        assert(!(es[es.len() - 1] is Admit));
        let e = es.last();
        match event_id(e) {
            None => {},
            Some(i) => {
                lemma_child_step_tags(None, i, e);
                assert(with_entry(Map::<u32, ChildState>::empty(), i, None) =~= Map::<u32, ChildState>::empty());
            },
        }
        assert(Seq::<ResponseView>::empty() + opt_seq(None) =~= Seq::<ResponseView>::empty());
    }
}

proof fn lemma_run_prepend(m: Map<u32, ChildState>, e: EventView, es: Seq<EventView>)
    ensures
        run(m, seq![e] + es) == (run(step(m, e).0, es).0, opt_seq(step(m, e).1) + run(step(m, e).0, es).1),
    decreases es.len(),
{
    if es.len() == 0 {
        assert((seq![e] + es).drop_last() =~= Seq::<EventView>::empty());
        assert((seq![e] + es).last() == e);
        assert(opt_seq(step(m, e).1) + Seq::<ResponseView>::empty() =~= opt_seq(step(m, e).1));
        assert(Seq::<ResponseView>::empty() + opt_seq(step(m, e).1) =~= opt_seq(step(m, e).1));
        assert(run(m, Seq::<EventView>::empty()) == (m, Seq::<ResponseView>::empty()));
        assert(run(step(m, e).0, es) == (step(m, e).0, Seq::<ResponseView>::empty()));
        assert(run(m, seq![e] + es) == (step(m, e).0, opt_seq(step(m, e).1)));
    } else {
        let t = es.drop_last();
        lemma_run_prepend(m, e, t);
        let all = seq![e] + es;
        assert(all.drop_last() =~= seq![e] + t);
        assert(all.last() == es.last());
        let m0 = step(m, e).0;
        let (m1, out) = run(m0, t);
        let (m2, r) = step(m1, es.last());
        assert(run(m0, es) == (m2, out + opt_seq(r)));
        assert(run(m, seq![e] + t) == (m1, opt_seq(step(m, e).1) + out));
        assert(run(m, all) == (m2, opt_seq(step(m, e).1) + out + opt_seq(r)));
        assert(opt_seq(step(m, e).1) + out + opt_seq(r) =~= opt_seq(step(m, e).1) + (out + opt_seq(r)));
    }
}

/// Asking again for a request id that is still open is rejected and leaves no
/// trace: the table, and everything sent afterwards, are as if the request had
/// never come.
pub proof fn lemma_duplicate_rejected(m: Map<u32, ChildState>, id: u32, es: Seq<EventView>)
    requires
        m.contains_key(id),
    ensures
        step(m, EventView::Admit { id }) == (m, None::<ResponseView>),
        run(m, seq![EventView::Admit { id }] + es) == run(m, es),
{
    assert(with_entry(m, id, entry(m, id)) =~= m);
    lemma_run_prepend(m, EventView::Admit { id }, es);
    assert(opt_seq(None) + run(m, es).1 =~= run(m, es).1);
}

/// Whether `es` holds a termination of the process.
pub open spec fn saw_exit(es: Seq<EventView>) -> bool {
    exists|k: int| 0 <= k < es.len() && (#[trigger] es[k]) is Exited
}

/// Whether `e` is the end of pipe `source`.
pub open spec fn ends(e: EventView, source: OutputStreamType) -> bool {
    match e {
        EventView::StreamEnd { source: s, .. } => s == source,
        _ => false,
    }
}

/// Whether `es` holds the end of pipe `source`.
pub open spec fn saw_end(es: Seq<EventView>, source: OutputStreamType) -> bool {
    exists|k: int| 0 <= k < es.len() && ends(#[trigger] es[k], source)
}

/// Whether `r` holds an exit response.
pub open spec fn has_exit(r: Seq<ResponseView>) -> bool {
    exists|k: int| 0 <= k < r.len() && (#[trigger] r[k]) is Exit
}

proof fn lemma_child_exit_sent(id: u32, es: Seq<EventView>)
    requires
        es.len() >= 1,
        es[0] == (EventView::Admit { id }),
        forall|k: int| 1 <= k < es.len() ==> !((#[trigger] es[k]) is Admit),
        forall|k: int| 0 <= k < es.len() ==> !((#[trigger] es[k]) is Closed),
    ensures
        ({
            let (c, out) = run_child(None, id, es);
            ||| has_exit(out)
            ||| {
                &&& c matches Some(s)
                &&& !(!s.stdout_open && !s.stderr_open && s.exit_status is Some)
                &&& saw_exit(es) ==> s.exit_status is Some
                &&& saw_end(es, OutputStreamType::Stdout) ==> !s.stdout_open
                &&& saw_end(es, OutputStreamType::Stderr) ==> !s.stderr_open
            }
        }),
    decreases es.len(),
{
    let t = es.drop_last();
    let e = es.last();
    if es.len() == 1 {
        assert(t =~= Seq::<EventView>::empty());
        assert(run_child(None, id, es) == (Some(running()), Seq::<ResponseView>::empty() + opt_seq(None)));
        assert(!saw_exit(es));
        assert(!saw_end(es, OutputStreamType::Stdout));
        assert(!saw_end(es, OutputStreamType::Stderr));
    } else {
        assert forall|k: int| 1 <= k < t.len() implies !((#[trigger] t[k]) is Admit) by {
            assert(t[k] == es[k]);
        }
        assert forall|k: int| 0 <= k < t.len() implies !((#[trigger] t[k]) is Closed) by {
            assert(t[k] == es[k]);
        }
        assert(t[0] == es[0]);
        lemma_child_exit_sent(id, t);
        assert(!(es[es.len() - 1] is Admit));
        assert(!(es[es.len() - 1] is Closed));
        let (c1, out1) = run_child(None, id, t);
        let (c2, r) = child_step(c1, id, e);
        let out = out1 + opt_seq(r);
        assert forall|k: int| 0 <= k < out1.len() implies out[k] == out1[k] by {}
        if has_exit(out1) {
            let k = choose|k: int| 0 <= k < out1.len() && (#[trigger] out1[k]) is Exit;
            assert(out[k] is Exit);
        } else {
            match r {
                Some(x) => assert(out[out.len() - 1] == x),
                None => {},
            }
            assert(saw_exit(es) ==> saw_exit(t) || e is Exited) by {
                if saw_exit(es) {
                    let k = choose|k: int| 0 <= k < es.len() && (#[trigger] es[k]) is Exited;
                    if k < t.len() {
                        assert(t[k] == es[k]);
                    }
                }
            }
            assert forall|src: OutputStreamType| saw_end(es, src) implies saw_end(t, src)
                || ends(e, src) by {
                let k = choose|k: int| 0 <= k < es.len() && ends(#[trigger] es[k], src);
                if k < t.len() {
                    assert(t[k] == es[k]);
                }
            }
            assert(saw_exit(t) ==> saw_exit(es)) by {
                if saw_exit(t) {
                    let k = choose|k: int| 0 <= k < t.len() && (#[trigger] t[k]) is Exited;
                    assert(es[k] == t[k]);
                }
            }
            assert forall|src: OutputStreamType| saw_end(t, src) implies saw_end(es, src) by {
                let k = choose|k: int| 0 <= k < t.len() && ends(#[trigger] t[k], src);
                assert(es[k] == t[k]);
            }
            if e is Exited {
                assert(saw_exit(es)) by {
                    assert(es[es.len() - 1] is Exited);
                }
            }
            if let EventView::StreamEnd { source, .. } = e {
                assert(saw_end(es, source)) by {
                    assert(es[es.len() - 1] == e);
                }
            }
        }
    }
}

/// A request that is accepted once (not open before), whose process then
/// terminates and whose two pipes both end, on a connection that stays open,
/// gets an exit response; by `lemma_exit_is_last` it gets exactly one.
pub proof fn lemma_exit_sent(m: Map<u32, ChildState>, es: Seq<EventView>, id: u32)
    requires
        !m.contains_key(id),
        admissions(es, id) == 1,
        events_for(es, id).len() >= 1,
        events_for(es, id)[0] == (EventView::Admit { id }),
        forall|k: int| 0 <= k < es.len() ==> !((#[trigger] es[k]) is Closed),
        saw_exit(events_for(es, id)),
        saw_end(events_for(es, id), OutputStreamType::Stdout),
        saw_end(events_for(es, id), OutputStreamType::Stderr),
    ensures
        has_exit(responses_for(run(m, es).1, id)),
{
    let f = events_for(es, id);
    lemma_run_projects(m, es, id);
    lemma_events_for_shape(es, id);
    assert forall|k: int| 1 <= k < f.len() implies !((#[trigger] f[k]) is Admit) by {
        if f[k] is Admit {
            lemma_admissions_two(f, id, k);
        }
    }
    lemma_child_exit_sent(id, f);
}

proof fn lemma_events_for_shape(es: Seq<EventView>, id: u32)
    requires
        forall|k: int| 0 <= k < es.len() ==> !((#[trigger] es[k]) is Closed),
    ensures
        forall|k: int| 0 <= k < events_for(es, id).len() ==> !((#[trigger] events_for(es, id)[k]) is Closed),
        forall|k: int| 0 <= k < events_for(es, id).len() ==> event_id(#[trigger] events_for(es, id)[k]) == Some(id),
        admissions(events_for(es, id), id) == admissions(es, id),
    decreases es.len(),
{
    if es.len() > 0 {
        let t = es.drop_last();
        assert forall|k: int| 0 <= k < t.len() implies !((#[trigger] t[k]) is Closed) by {
            assert(t[k] == es[k]);
        }
        assert(!(es[es.len() - 1] is Closed));
        lemma_events_for_shape(t, id);
        if concerns(es.last(), id) {
            let f = events_for(t, id).push(es.last());
            assert(f.drop_last() == events_for(t, id));
            assert forall|k: int| 0 <= k < f.len() implies !((#[trigger] f[k]) is Closed) && event_id(f[k]) == Some(id) by {
                if k < f.len() - 1 {
                    assert(f[k] == events_for(t, id)[k]);
                }
            }
        }
    }
}

proof fn lemma_admissions_two(f: Seq<EventView>, id: u32, k: int)
    requires
        1 <= k < f.len(),
        f[0] == (EventView::Admit { id }),
        f[k] is Admit,
        event_id(f[k]) == Some(id),
    ensures
        admissions(f, id) >= 2,
    decreases f.len(),
{
    let t = f.drop_last();
    if k == f.len() - 1 {
        lemma_admissions_first(t, id);
    } else {
        assert(t[0] == f[0]);
        assert(t[k] == f[k]);
        lemma_admissions_two(t, id, k);
    }
}

proof fn lemma_admissions_first(f: Seq<EventView>, id: u32)
    requires
        f.len() >= 1,
        f[0] == (EventView::Admit { id }),
    ensures
        admissions(f, id) >= 1,
    decreases f.len(),
{
    if f.len() > 1 {
        let t = f.drop_last();
        assert(t[0] == f[0]);
        lemma_admissions_first(t, id);
    }
}

} // verus!
