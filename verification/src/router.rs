//! The router: the single owner of the TabId -> worker registry.
//!
//! On any event referencing a tab the router looks its worker up, lazily
//! creating one on first reference, and forwards the corresponding command.
//! A close leaves the registry entry in place: later events for that tab
//! reach the terminated worker and are dropped, never respawned. The
//! registry is deliberately not cleaned on close.

use vstd::prelude::*;

use crate::index::DocModel;
use crate::index::ScoreResult;
use crate::index::score_result_ok;
use crate::index::vocab_spec;
use crate::tokens::dedup_first;
use crate::tokens::query_tokens;
use crate::tokens::views;
use crate::worker::TabWorker;
use crate::worker::WorkerCommand;
use crate::worker::WorkerModel;
use crate::worker::WorkerOutput;
use crate::worker::worker_step;

verus! {

/// An event the router receives, from the browser or from the voice tool.
pub enum RouterEvent {
    FocusTab { tab_id: u64 },
    UpdateIndex { tab_id: u64, updated: Vec<(usize, Vec<u8>)>, removed: Vec<usize> },
    CloseTab { tab_id: u64 },
    Query { tab_id: u64, query: Vec<u8> },
}

/// What the router forwards downstream: vocabulary updates to the voice
/// tool's writer, score results to the browser's output writer.
pub enum RouterOutput {
    ToTalon { tab_id: u64, words: Vec<Vec<u8>> },
    ToBrowser { tab_id: u64, result: ScoreResult },
}

/// The router's registry of workers, keyed by each worker's own tab id.
pub struct Router {
    pub workers: Vec<TabWorker>,
}

/// The tab an event refers to.
pub open spec fn event_tab(e: RouterEvent) -> u64 {
    match e {
        RouterEvent::FocusTab { tab_id } => tab_id,
        RouterEvent::UpdateIndex { tab_id, .. } => tab_id,
        RouterEvent::CloseTab { tab_id } => tab_id,
        RouterEvent::Query { tab_id, .. } => tab_id,
    }
}

/// The command the router forwards for an event.
pub open spec fn event_cmd(e: RouterEvent) -> WorkerCommand {
    match e {
        RouterEvent::FocusTab { .. } => WorkerCommand::FocusTab,
        RouterEvent::UpdateIndex { tab_id: _, updated, removed } => WorkerCommand::UpdateIndex {
            updated,
            removed,
        },
        RouterEvent::CloseTab { .. } => WorkerCommand::CloseTab,
        RouterEvent::Query { tab_id: _, query } => WorkerCommand::Query { query },
    }
}

/// Whether some worker owns tab `t`.
pub open spec fn has_worker(ws: Seq<TabWorker>, t: int) -> bool {
    exists|i: int| 0 <= i < ws.len() && ws[i].tab_id == t
}

/// The position of tab `t`'s worker.
pub open spec fn worker_index_of(ws: Seq<TabWorker>, t: int) -> int {
    choose|i: int| 0 <= i < ws.len() && ws[i].tab_id == t
}

/// Tab `t`'s worker.
pub open spec fn worker_of(ws: Seq<TabWorker>, t: int) -> TabWorker {
    ws[worker_index_of(ws, t)]
}

impl View for Router {
    type V = Map<int, WorkerModel>;

    /// The abstract registry: each known tab's worker state, keyed by tab.
    open spec fn view(&self) -> Map<int, WorkerModel> {
        Map::new(
            |t: int| has_worker(self.workers@, t),
            |t: int| worker_of(self.workers@, t)@,
        )
    }
}

impl Router {
    /// Well-formedness: distinct tabs, each with a well-formed worker.
    pub open spec fn wf(self) -> bool {
        &&& forall|i: int, j: int|
            0 <= i < j < self.workers@.len() ==> self.workers@[i].tab_id
                != self.workers@[j].tab_id
        &&& forall|i: int| 0 <= i < self.workers@.len() ==> (#[trigger] self.workers@[i]).wf()
    }
}

/// The model of a worker just spawned for a first-referenced tab.
pub open spec fn fresh_worker_model() -> WorkerModel {
    WorkerModel { active: true, docs: Map::empty() }
}

/// The registry after one event: the referenced tab's worker — existing, or
/// fresh on first reference — steps by the event's command; no other entry
/// changes, and no entry is ever dropped.
pub open spec fn router_step(m: Map<int, WorkerModel>, e: RouterEvent) -> Map<int, WorkerModel> {
    let t = event_tab(e) as int;
    let pre = if m.contains_key(t) {
        m[t]
    } else {
        fresh_worker_model()
    };
    m.insert(t, worker_step(pre, event_cmd(e)))
}

/// What the router forwards for one event: nothing for a close or for a
/// terminated tab; the tab's post-state vocabulary for focus and index
/// updates; the exact score result for queries.
pub open spec fn router_output_ok(
    m: Map<int, WorkerModel>,
    e: RouterEvent,
    out: Option<RouterOutput>,
) -> bool {
    let t = event_tab(e) as int;
    let pre = if m.contains_key(t) {
        m[t]
    } else {
        fresh_worker_model()
    };
    let post = worker_step(pre, event_cmd(e));
    if !pre.active {
        out is None
    } else {
        match e {
            RouterEvent::FocusTab { tab_id } | RouterEvent::UpdateIndex { tab_id, .. } => match out {
                Some(RouterOutput::ToTalon { tab_id: t2, words }) => {
                    &&& t2 == tab_id
                    &&& views(words@).no_duplicates()
                    &&& forall|w: Seq<u8>|
                        #[trigger] views(words@).contains(w) <==> vocab_spec(post.docs).contains(w)
                },
                _ => false,
            },
            RouterEvent::Query { tab_id, query } => match out {
                Some(RouterOutput::ToBrowser { tab_id: t2, result }) => {
                    &&& t2 == tab_id
                    &&& score_result_ok(pre.docs, dedup_first(query_tokens(query@)), result)
                },
                _ => false,
            },
            RouterEvent::CloseTab { .. } => out is None,
        }
    }
}

/// A worker looks itself up: with distinct tabs, `worker_index_of` is exact.
pub proof fn lemma_worker_lookup(ws: Seq<TabWorker>, i: int)
    requires
        forall|p: int, q: int| 0 <= p < q < ws.len() ==> ws[p].tab_id != ws[q].tab_id,
        0 <= i < ws.len(),
    ensures
        has_worker(ws, ws[i].tab_id as int),
        worker_index_of(ws, ws[i].tab_id as int) == i,
        worker_of(ws, ws[i].tab_id as int) == ws[i],
{
    assert(has_worker(ws, ws[i].tab_id as int));
    let i2 = worker_index_of(ws, ws[i].tab_id as int);
    assert(0 <= i2 < ws.len() && ws[i2].tab_id == ws[i].tab_id);
    if i2 != i {
        assert(false);
    }
}

/// Replacing one tab's worker (by swap-removing it and pushing the new one)
/// leaves every other worker where lookup finds it.
pub proof fn lemma_workers_replaced(before: Seq<TabWorker>, wj: int, w2: TabWorker)
    requires
        forall|p: int, q: int| 0 <= p < q < before.len() ==> before[p].tab_id != before[q].tab_id,
        0 <= wj < before.len(),
        w2.tab_id == before[wj].tab_id,
    ensures
        ({
            let after = before.update(wj, before.last()).drop_last().push(w2);
            &&& forall|p: int, q: int|
                0 <= p < q < after.len() ==> after[p].tab_id != after[q].tab_id
            &&& forall|t: int| has_worker(after, t) <==> has_worker(before, t)
            &&& worker_of(after, w2.tab_id as int) == w2
            &&& forall|t: int|
                t != w2.tab_id && has_worker(before, t) ==> worker_of(after, t) == worker_of(
                    before,
                    t,
                )
            &&& forall|k: int|
                0 <= k < after.len() ==> after[k] == w2 || before.contains(#[trigger] after[k])
        }),
{
    let n = before.len() as int;
    let after = before.update(wj, before.last()).drop_last().push(w2);
    assert(after.len() == n);
    assert(forall|k: int|
        0 <= k < n ==> after[k] == (if k == n - 1 {
            w2
        } else if k == wj {
            before[n - 1]
        } else {
            before[k]
        }));
    assert forall|k: int| 0 <= k < after.len() implies after[k] == w2 || before.contains(
        #[trigger] after[k],
    ) by {
        if k < n - 1 {
            if k == wj {
                assert(before[n - 1] == after[k]);
            } else {
                assert(before[k] == after[k]);
            }
        }
    }
    assert forall|p: int, q: int| 0 <= p < q < after.len() implies after[p].tab_id
        != after[q].tab_id by {
        if q == n - 1 {
            if p == wj {
                assert(after[p].tab_id == before[n - 1].tab_id);
                if wj < n - 1 {
                    assert(before[wj].tab_id != before[n - 1].tab_id);
                }
            } else {
                assert(after[p].tab_id == before[p].tab_id);
            }
        }
    }
    lemma_worker_lookup(after, n - 1);
    assert forall|t: int| t != w2.tab_id && has_worker(before, t) implies has_worker(after, t)
        && worker_of(after, t) == worker_of(before, t) by {
        let j = choose|j: int| 0 <= j < before.len() && before[j].tab_id == t;
        lemma_worker_lookup(before, j);
        if j == wj {
            assert(false);
        } else if j == n - 1 {
            assert(after[wj].tab_id == t);
            lemma_worker_lookup(after, wj);
        } else {
            assert(after[j].tab_id == t);
            lemma_worker_lookup(after, j);
        }
    }
    assert forall|t: int| has_worker(after, t) implies has_worker(before, t) by {
        let k = choose|k: int| 0 <= k < after.len() && after[k].tab_id == t;
        if k == n - 1 {
            assert(before[wj].tab_id == t);
        } else if k == wj {
            assert(before[n - 1].tab_id == t);
        } else {
            assert(before[k].tab_id == t);
        }
    }
    assert forall|t: int| has_worker(before, t) implies has_worker(after, t) by {
        let j = choose|j: int| 0 <= j < before.len() && before[j].tab_id == t;
        if j == wj {
            assert(after[n - 1].tab_id == t);
        } else if j == n - 1 {
            assert(after[wj].tab_id == t);
        } else {
            assert(after[j].tab_id == t);
        }
    }
}

/// Appending a worker for a new tab leaves the others where lookup finds
/// them.
pub proof fn lemma_workers_pushed(before: Seq<TabWorker>, w2: TabWorker)
    requires
        forall|p: int, q: int| 0 <= p < q < before.len() ==> before[p].tab_id != before[q].tab_id,
        !has_worker(before, w2.tab_id as int),
    ensures
        ({
            let after = before.push(w2);
            &&& forall|p: int, q: int|
                0 <= p < q < after.len() ==> after[p].tab_id != after[q].tab_id
            &&& forall|t: int| has_worker(after, t) <==> (has_worker(before, t) || t == w2.tab_id)
            &&& worker_of(after, w2.tab_id as int) == w2
            &&& forall|t: int|
                t != w2.tab_id && has_worker(before, t) ==> worker_of(after, t) == worker_of(
                    before,
                    t,
                )
            &&& forall|k: int|
                0 <= k < after.len() ==> after[k] == w2 || before.contains(#[trigger] after[k])
        }),
{
    let n = before.len() as int;
    let after = before.push(w2);
    assert(forall|k: int|
        0 <= k < after.len() ==> after[k] == (if k == n {
            w2
        } else {
            before[k]
        }));
    assert forall|k: int| 0 <= k < after.len() implies after[k] == w2 || before.contains(
        #[trigger] after[k],
    ) by {
        if k < n {
            assert(before[k] == after[k]);
        }
    }
    assert forall|p: int, q: int| 0 <= p < q < after.len() implies after[p].tab_id
        != after[q].tab_id by {
        if q == n {
            if after[p].tab_id == w2.tab_id {
                assert(has_worker(before, w2.tab_id as int));
            }
        }
    }
    lemma_worker_lookup(after, n);
    assert forall|t: int| t != w2.tab_id && has_worker(before, t) implies has_worker(after, t)
        && worker_of(after, t) == worker_of(before, t) by {
        let j = choose|j: int| 0 <= j < before.len() && before[j].tab_id == t;
        lemma_worker_lookup(before, j);
        assert(after[j].tab_id == t);
        lemma_worker_lookup(after, j);
    }
    assert forall|t: int| has_worker(after, t) implies (has_worker(before, t) || t
        == w2.tab_id) by {
        let k = choose|k: int| 0 <= k < after.len() && after[k].tab_id == t;
        if k < n {
            assert(before[k].tab_id == t);
        }
    }
}

/// The tabs a list of events reference, in order.
pub open spec fn event_tabs(events: Seq<RouterEvent>) -> Seq<int> {
    events.map_values(|e: RouterEvent| event_tab(e) as int)
}

/// The registry after a list of events, applied in order.
pub open spec fn router_run(m: Map<int, WorkerModel>, events: Seq<RouterEvent>) -> Map<
    int,
    WorkerModel,
>
    decreases events.len(),
{
    if events.len() == 0 {
        m
    } else {
        router_step(router_run(m, events.drop_last()), events.last())
    }
}

/// Exactly one worker per referenced tab, and none for an unreferenced one:
/// after any list of events, starting from an empty registry, the
/// registry's keys are exactly the tabs the events reference.
pub proof fn lemma_one_worker_per_tab(events: Seq<RouterEvent>)
    ensures
        router_run(Map::empty(), events).dom() == event_tabs(events).to_set(),
    decreases events.len(),
{
    if events.len() == 0 {
        assert(router_run(Map::empty(), events).dom() =~= event_tabs(events).to_set()) by {
            assert forall|t: int| !event_tabs(events).to_set().contains(t) by {
                if event_tabs(events).contains(t) {
                    let i = choose|i: int|
                        0 <= i < event_tabs(events).len() && event_tabs(events)[i] == t;
                }
            }
        }
    } else {
        lemma_one_worker_per_tab(events.drop_last());
        let m1 = router_run(Map::empty(), events.drop_last());
        let tabs = event_tabs(events);
        let tabs1 = event_tabs(events.drop_last());
        assert(router_run(Map::empty(), events).dom() =~= tabs.to_set()) by {
            assert forall|t: int|
                router_run(Map::empty(), events).dom().contains(t) implies tabs.to_set().contains(
                t,
            ) by {
                if t == event_tab(events.last()) {
                    assert(tabs[events.len() - 1] == t);
                } else {
                    assert(m1.dom().contains(t));
                    assert(tabs1.to_set().contains(t));
                    let i = choose|i: int| 0 <= i < tabs1.len() && tabs1[i] == t;
                    assert(tabs[i] == t);
                }
            }
            assert forall|t: int|
                tabs.to_set().contains(t) implies router_run(Map::empty(), events).dom().contains(
                t,
            ) by {
                let i = choose|i: int| 0 <= i < tabs.len() && tabs[i] == t;
                if i < events.len() - 1 {
                    assert(tabs1[i] == t);
                    assert(tabs1.to_set().contains(t));
                } else {
                    assert(t == event_tab(events.last()));
                }
            }
        }
    }
}

/// A closed tab stays in the registry, terminated, and any later event for
/// it changes nothing; with `router_output_ok`, such an event forwards
/// nothing. No fresh worker is ever spawned for a closed tab.
pub proof fn lemma_closed_tab_stays_closed(m: Map<int, WorkerModel>, t: u64, e: RouterEvent)
    requires
        event_tab(e) == t,
    ensures
        ({
            let m1 = router_step(m, RouterEvent::CloseTab { tab_id: t });
            &&& m1.contains_key(t as int)
            &&& !m1[t as int].active
            &&& router_step(m1, e) == m1
            &&& forall|out: Option<RouterOutput>| router_output_ok(m1, e, out) ==> out is None
        }),
{
    let m1 = router_step(m, RouterEvent::CloseTab { tab_id: t });
    assert(router_step(m1, e) =~= m1);
}

/// The position of tab `tab_id`'s worker, if any.
fn find_worker(ws: &Vec<TabWorker>, tab_id: u64) -> (r: Option<usize>)
    ensures
        match r {
            Some(i) => 0 <= i < ws@.len() && ws@[i as int].tab_id == tab_id,
            None => !has_worker(ws@, tab_id as int),
        },
{
    let mut i: usize = 0;
    while i < ws.len()
        invariant
            i <= ws@.len(),
            forall|j: int| 0 <= j < i ==> ws@[j].tab_id != tab_id,
        decreases ws@.len() - i,
    {
        if ws[i].tab_id == tab_id {
            return Some(i);
        }
        i += 1;
    }
    None
}

impl Router {
    /// A router with no workers.
    pub fn new() -> (r: Router)
        ensures
            r.wf(),
            r@ == Map::<int, WorkerModel>::empty(),
    {
        let r = Router { workers: Vec::new() };
        proof {
            assert(r@ =~= Map::<int, WorkerModel>::empty());
        }
        r
    }

    /// Routes one event: finds or spawns the tab's worker, forwards the
    /// command, and returns what is to be forwarded downstream, if
    /// anything. Events for a closed tab reach the terminated worker and
    /// produce nothing.
    pub fn handle_event(&mut self, e: RouterEvent) -> (out: Option<RouterOutput>)
        requires
            old(self).wf(),
        ensures
            final(self).wf(),
            final(self)@ == router_step(old(self)@, e),
            router_output_ok(old(self)@, e, out),
    {
        let tab_id: u64 = match &e {
            RouterEvent::FocusTab { tab_id } => *tab_id,
            RouterEvent::UpdateIndex { tab_id, .. } => *tab_id,
            RouterEvent::CloseTab { tab_id } => *tab_id,
            RouterEvent::Query { tab_id, .. } => *tab_id,
        };
        let ghost m0 = old(self)@;
        let pos = find_worker(&self.workers, tab_id);
        let wi: usize = match pos {
            Some(i) => i,
            None => {
                let ghost prev = self.workers@;
                self.workers.push(TabWorker::new(tab_id));
                proof {
                    lemma_workers_pushed(prev, self.workers@.last());
                    assert forall|i: int|
                        0 <= i < self.workers@.len() implies (#[trigger] self.workers@[i]).wf() by {
                        if self.workers@[i] != self.workers@.last() {
                            let j = choose|j: int|
                                0 <= j < prev.len() && prev[j] == self.workers@[i];
                            assert(prev[j].wf());
                        }
                    }
                    assert(self.workers@.last()@ == fresh_worker_model());
                    assert(self@ =~= m0.insert(tab_id as int, fresh_worker_model())) by {
                        assert(worker_of(self.workers@, tab_id as int) == self.workers@.last());
                        assert(forall|t: int|
                            t != tab_id && has_worker(prev, t) ==> worker_of(self.workers@, t)
                                == worker_of(prev, t));
                    }
                }
                self.workers.len() - 1
            },
        };
        let ghost mid = *self;
        let ghost pre_m = if m0.contains_key(tab_id as int) {
            m0[tab_id as int]
        } else {
            fresh_worker_model()
        };
        proof {
            lemma_worker_lookup(mid.workers@, wi as int);
            assert(mid@.contains_key(tab_id as int));
            assert(mid@[tab_id as int] == mid.workers@[wi as int]@);
            assert(mid@[tab_id as int] == pre_m) by {
                if pos is Some {
                    assert(mid@ == m0);
                    assert(m0.contains_key(tab_id as int));
                } else {
                    assert(mid@ == m0.insert(tab_id as int, fresh_worker_model()));
                }
            }
        }
        let mut w = self.workers.swap_remove(wi);
        let ghost pre_w = w;
        let cmd = match e {
            RouterEvent::FocusTab { .. } => WorkerCommand::FocusTab,
            RouterEvent::UpdateIndex { tab_id: _, updated, removed } => WorkerCommand::UpdateIndex {
                updated,
                removed,
            },
            RouterEvent::CloseTab { .. } => WorkerCommand::CloseTab,
            RouterEvent::Query { tab_id: _, query } => WorkerCommand::Query { query },
        };
        proof {
            assert(cmd == event_cmd(e));
        }
        let wout = w.handle(cmd);
        self.workers.push(w);
        proof {
            lemma_workers_replaced(mid.workers@, wi as int, self.workers@.last());
            assert(self.workers@ == mid.workers@.update(
                wi as int,
                mid.workers@.last(),
            ).drop_last().push(self.workers@.last()));
            assert forall|i: int|
                0 <= i < self.workers@.len() implies (#[trigger] self.workers@[i]).wf() by {
                if self.workers@[i] != self.workers@.last() {
                    let j = choose|j: int|
                        0 <= j < mid.workers@.len() && mid.workers@[j] == self.workers@[i];
                    assert(mid.workers@[j].wf());
                }
            }
            assert(self@ =~= mid@.insert(tab_id as int, worker_step(pre_m, cmd))) by {
                assert(worker_of(self.workers@, tab_id as int)@ == worker_step(pre_m, cmd));
                assert forall|t: int|
                    t != tab_id && has_worker(mid.workers@, t) implies worker_of(
                    self.workers@,
                    t,
                )@ == worker_of(mid.workers@, t)@ by {}
            }
            assert(self@ =~= router_step(m0, e)) by {
                if pos is None {
                    assert(mid@ == m0.insert(tab_id as int, fresh_worker_model()));
                    assert(m0.insert(tab_id as int, fresh_worker_model()).insert(
                        tab_id as int,
                        worker_step(pre_m, cmd),
                    ) =~= m0.insert(tab_id as int, worker_step(pre_m, cmd)));
                }
            }
        }
        match wout {
            Some(WorkerOutput::Vocabulary { tab_id: t2, words }) => Some(
                RouterOutput::ToTalon { tab_id: t2, words },
            ),
            Some(WorkerOutput::Score { tab_id: t2, result }) => Some(
                RouterOutput::ToBrowser { tab_id: t2, result },
            ),
            None => None,
        }
    }
}

} // verus!
