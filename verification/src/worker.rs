//! The per-tab worker: one index, one lifecycle flag, commands in order.
//!
//! A worker is Active until it processes a close command, after which it is
//! Terminated and processes nothing further. Focus and index updates emit
//! the current vocabulary for the voice tool; queries emit their score
//! result for the browser; a close emits nothing.

use vstd::prelude::*;

use crate::index::DocModel;
use crate::index::ScoreResult;
use crate::index::TfidfIndex;
use crate::index::doc_model;
use crate::index::score_result_ok;
use crate::index::vocab_spec;
use crate::tokens::dedup_first;
use crate::tokens::doc_tokens;
use crate::tokens::query_tokens;
use crate::tokens::views;

verus! {

/// A command a worker processes, in arrival order.
pub enum WorkerCommand {
    FocusTab,
    UpdateIndex { updated: Vec<(usize, Vec<u8>)>, removed: Vec<usize> },
    Query { query: Vec<u8> },
    CloseTab,
}

/// What a worker hands back for a command, tagged with its tab.
pub enum WorkerOutput {
    Vocabulary { tab_id: u64, words: Vec<Vec<u8>> },
    Score { tab_id: u64, result: ScoreResult },
}

/// The abstract state of a worker: whether it still processes commands,
/// and the abstract state of its index.
#[verifier::ext_equal]
pub ghost struct WorkerModel {
    pub active: bool,
    pub docs: Map<int, DocModel>,
}

/// A tab's worker: its id, its own index, and its lifecycle flag.
pub struct TabWorker {
    pub tab_id: u64,
    pub index: TfidfIndex,
    pub active: bool,
}

impl View for TabWorker {
    type V = WorkerModel;

    open spec fn view(&self) -> WorkerModel {
        WorkerModel { active: self.active, docs: self.index@ }
    }
}

/// The state after applying each updated document in order.
pub open spec fn apply_updates(docs: Map<int, DocModel>, updated: Seq<(usize, Vec<u8>)>) -> Map<
    int,
    DocModel,
>
    decreases updated.len(),
{
    if updated.len() == 0 {
        docs
    } else {
        apply_updates(docs, updated.drop_last()).insert(
            updated.last().0 as int,
            doc_model(doc_tokens(updated.last().1@)),
        )
    }
}

/// The state after removing each listed document in order.
pub open spec fn apply_removed(docs: Map<int, DocModel>, removed: Seq<usize>) -> Map<int, DocModel>
    decreases removed.len(),
{
    if removed.len() == 0 {
        docs
    } else {
        apply_removed(docs, removed.drop_last()).remove(removed.last() as int)
    }
}

/// The worker state after one command: an index update applies the updated
/// list, then the removed list, so an id in both ends up removed; a close
/// terminates the worker; focus and queries change nothing. A terminated
/// worker changes nothing at all.
pub open spec fn worker_step(m: WorkerModel, cmd: WorkerCommand) -> WorkerModel {
    if !m.active {
        m
    } else {
        match cmd {
            WorkerCommand::FocusTab => m,
            WorkerCommand::UpdateIndex { updated, removed } => WorkerModel {
                active: true,
                docs: apply_removed(apply_updates(m.docs, updated@), removed@),
            },
            WorkerCommand::Query { query: _ } => m,
            WorkerCommand::CloseTab => WorkerModel { active: false, docs: m.docs },
        }
    }
}

/// What a worker emits for one command: nothing when terminated or closing;
/// the post-state vocabulary for focus and index updates; the query's exact
/// score result for queries.
pub open spec fn worker_output_ok(
    pre: WorkerModel,
    post: WorkerModel,
    cmd: WorkerCommand,
    tab_id: u64,
    out: Option<WorkerOutput>,
) -> bool {
    if !pre.active {
        out is None
    } else {
        match cmd {
            WorkerCommand::FocusTab | WorkerCommand::UpdateIndex { .. } => match out {
                Some(WorkerOutput::Vocabulary { tab_id: t, words }) => {
                    &&& t == tab_id
                    &&& views(words@).no_duplicates()
                    &&& forall|w: Seq<u8>|
                        #[trigger] views(words@).contains(w) <==> vocab_spec(post.docs).contains(w)
                },
                _ => false,
            },
            WorkerCommand::Query { query } => match out {
                Some(WorkerOutput::Score { tab_id: t, result }) => {
                    &&& t == tab_id
                    &&& score_result_ok(pre.docs, dedup_first(query_tokens(query@)), result)
                },
                _ => false,
            },
            WorkerCommand::CloseTab => out is None,
        }
    }
}

impl TabWorker {
    /// Well-formedness: the owned index is well-formed.
    pub open spec fn wf(self) -> bool {
        self.index.wf()
    }

    /// A fresh, active worker with an empty index.
    pub fn new(tab_id: u64) -> (r: TabWorker)
        ensures
            r.wf(),
            r.tab_id == tab_id,
            r@ == (WorkerModel { active: true, docs: Map::<int, DocModel>::empty() }),
    {
        TabWorker { tab_id, index: TfidfIndex::new(), active: true }
    }

    /// Processes one command: steps the state as `worker_step` says and
    /// emits what `worker_output_ok` says.
    pub fn handle(&mut self, cmd: WorkerCommand) -> (out: Option<WorkerOutput>)
        requires
            old(self).wf(),
        ensures
            final(self).wf(),
            final(self).tab_id == old(self).tab_id,
            final(self)@ == worker_step(old(self)@, cmd),
            worker_output_ok(old(self)@, final(self)@, cmd, old(self).tab_id, out),
    {
        if !self.active {
            return None;
        }
        match cmd {
            WorkerCommand::FocusTab => {
                let words = self.index.vocabulary();
                Some(WorkerOutput::Vocabulary { tab_id: self.tab_id, words })
            },
            WorkerCommand::UpdateIndex { updated, removed } => {
                let ghost docs0 = self.index@;
                let mut i: usize = 0;
                while i < updated.len()
                    invariant
                        i <= updated@.len(),
                        self.index.wf(),
                        self.tab_id == old(self).tab_id,
                        self.active,
                        docs0 == old(self)@.docs,
                        self.index@ == apply_updates(docs0, updated@.take(i as int)),
                    decreases updated@.len() - i,
                {
                    proof {
                        assert(updated@.take(i as int + 1).drop_last() =~= updated@.take(i as int));
                        assert(updated@.take(i as int + 1).last() == updated@[i as int]);
                    }
                    let id = updated[i].0;
                    self.index.update(id, &updated[i].1);
                    i += 1;
                }
                proof {
                    assert(updated@.take(updated@.len() as int) =~= updated@);
                }
                let ghost docs1 = self.index@;
                let mut j: usize = 0;
                while j < removed.len()
                    invariant
                        j <= removed@.len(),
                        self.index.wf(),
                        self.tab_id == old(self).tab_id,
                        self.active,
                        docs1 == apply_updates(old(self)@.docs, updated@),
                        self.index@ == apply_removed(docs1, removed@.take(j as int)),
                    decreases removed@.len() - j,
                {
                    proof {
                        assert(removed@.take(j as int + 1).drop_last() =~= removed@.take(j as int));
                        assert(removed@.take(j as int + 1).last() == removed@[j as int]);
                    }
                    self.index.remove(removed[j]);
                    j += 1;
                }
                proof {
                    assert(removed@.take(removed@.len() as int) =~= removed@);
                }
                let words = self.index.vocabulary();
                Some(WorkerOutput::Vocabulary { tab_id: self.tab_id, words })
            },
            WorkerCommand::Query { query } => {
                let result = self.index.score(&query);
                Some(WorkerOutput::Score { tab_id: self.tab_id, result })
            },
            WorkerCommand::CloseTab => {
                self.active = false;
                None
            },
        }
    }
}

} // verus!
