//! The deletion schedule: the steps that purge a finalized plan, one
//! versioned delete per marked version, each followed by a fixed pause.

use vstd::prelude::*;

use crate::plan::{targets_in_order, DeletionPlan, EntryModel, TargetModel};

verus! {

/// The pause after each deletion step, in milliseconds.
pub const PACING_MS: u64 = 100;

/// One step as (object key, version id, whether a delete request is sent,
/// pause afterwards in milliseconds).
pub type StepModel = (Seq<char>, Seq<char>, bool, u64);

/// One step of the purge: report the version, delete exactly that version
/// of that key when `issue_delete` holds, then pause.
pub struct DeletionStep {
    pub key: String,
    pub version_id: String,
    pub issue_delete: bool,
    pub pause_ms: u64,
}

impl View for DeletionStep {
    type V = StepModel;

    open spec fn view(&self) -> StepModel {
        (self.key@, self.version_id@, self.issue_delete, self.pause_ms)
    }
}

/// The steps for `targets`, in order: a delete request for each one unless
/// `dry_run` holds, and the same pause either way.
pub open spec fn schedule_of(targets: Seq<TargetModel>, dry_run: bool) -> Seq<StepModel> {
    Seq::new(targets.len(), |i: int| (targets[i].0, targets[i].1, !dry_run, PACING_MS))
}

/// The steps that purge `plan`: blocks in ascending identifier order, each
/// block's versions in the order they were found.
pub fn deletion_steps(plan: &DeletionPlan, dry_run: bool) -> (r: Vec<DeletionStep>)
    requires
        plan.wf(),
    ensures
        r@.map_values(|s: DeletionStep| s@) == schedule_of(
            targets_in_order(plan.entries_view()),
            dry_run,
        ),
{
    let entries = plan.entries();
    let ghost ev: Seq<EntryModel> = plan.entries_view();
    let mut steps: Vec<DeletionStep> = Vec::new();
    let n = entries.len();
    let mut i: usize = 0;
    while i < n
        invariant
            n == ev.len(),
            entries@.map_values(|e: crate::plan::BlockTargets| e@) == ev,
            i <= n,
            steps@.map_values(|s: DeletionStep| s@) == schedule_of(
                targets_in_order(ev.take(i as int)),
                dry_run,
            ),
        decreases n - i,
    {
        let targets = &entries[i].targets;
        assert(ev[i as int] == entries@[i as int]@);
        let ghost tv: Seq<TargetModel> = ev[i as int].1;
        let ghost done = targets_in_order(ev.take(i as int));
        let m = targets.len();
        let mut j: usize = 0;
        while j < m
            invariant
                m == tv.len(),
                targets@.map_values(|t: crate::plan::DeletionTarget| t@) == tv,
                j <= m,
                steps@.map_values(|s: DeletionStep| s@) == schedule_of(
                    done + tv.take(j as int),
                    dry_run,
                ),
            decreases m - j,
        {
            let t = &targets[j];
            assert(tv[j as int] == t@);
            let ghost before = steps@.map_values(|s: DeletionStep| s@);
            steps.push(
                DeletionStep {
                    key: t.key.clone(),
                    version_id: t.version_id.clone(),
                    issue_delete: !dry_run,
                    pause_ms: PACING_MS,
                },
            );
            assert(steps@.map_values(|s: DeletionStep| s@) =~= before.push(
                (t.key@, t.version_id@, !dry_run, PACING_MS),
            ));
            assert(done + tv.take(j + 1) =~= (done + tv.take(j as int)).push(tv[j as int]));
            assert(steps@.map_values(|s: DeletionStep| s@) =~= schedule_of(
                done + tv.take(j + 1),
                dry_run,
            ));
            j = j + 1;
        }
        assert(tv.take(m as int) =~= tv);
        assert(ev.take(i + 1).drop_last() =~= ev.take(i as int));
        i = i + 1;
    }
    assert(ev.take(n as int) =~= ev);
    steps
}

} // verus!
