//! The deletion plan: for each block that carries delete markers, the
//! marked versions to purge, kept in ascending block order.

use vstd::prelude::*;

use crate::block_id::{
    id_less, id_lt, lemma_id_lt_irreflexive, lemma_id_lt_total,
    lemma_id_lt_transitive,
};

verus! {

/// A version to purge, as (object key, version id).
pub type TargetModel = (Seq<char>, Seq<char>);

/// A block and the versions to purge in it, in the order they were found.
pub type EntryModel = (Seq<char>, Seq<TargetModel>);

/// What a plan holds: each planned block mapped to its versions to purge.
pub type PlanModel = Map<Seq<char>, Seq<TargetModel>>;

/// One marked version of one object.
pub struct DeletionTarget {
    pub key: String,
    pub version_id: String,
}

impl View for DeletionTarget {
    type V = TargetModel;

    open spec fn view(&self) -> TargetModel {
        (self.key@, self.version_id@)
    }
}

/// A block of the plan with its versions to purge.
pub struct BlockTargets {
    pub block: String,
    pub targets: Vec<DeletionTarget>,
}

impl View for BlockTargets {
    type V = EntryModel;

    open spec fn view(&self) -> EntryModel {
        (self.block@, self.targets@.map_values(|t: DeletionTarget| t@))
    }
}

/// Records that `target` is to be purged from `block`, after those already
/// recorded for it.
pub open spec fn plan_add(plan: PlanModel, block: Seq<char>, target: TargetModel) -> PlanModel {
    if plan.contains_key(block) {
        plan.insert(block, plan[block].push(target))
    } else {
        plan.insert(block, seq![target])
    }
}

/// Blocks strictly ascending in identifier order (so none repeats).
pub open spec fn ascending(entries: Seq<EntryModel>) -> bool {
    forall|i: int, j: int|
        0 <= i < j < entries.len() ==> id_lt(#[trigger] entries[i].0, #[trigger] entries[j].0)
}

pub open spec fn has_block(entries: Seq<EntryModel>, block: Seq<char>) -> bool {
    exists|i: int| 0 <= i < entries.len() && entries[i].0 == block
}

/// The map that a sequence of entries with distinct blocks stands for.
pub open spec fn plan_of(entries: Seq<EntryModel>) -> PlanModel {
    Map::new(
        |b: Seq<char>| has_block(entries, b),
        |b: Seq<char>| entries[choose|i: int| 0 <= i < entries.len() && entries[i].0 == b].1,
    )
}

/// Every version of the entries, block after block, each block's in order.
pub open spec fn targets_in_order(entries: Seq<EntryModel>) -> Seq<TargetModel>
    decreases entries.len(),
{
    if entries.len() == 0 {
        Seq::empty()
    } else {
        targets_in_order(entries.drop_last()) + entries.last().1
    }
}

/// The plan of a run. Blocks are kept in ascending identifier order, which
/// is the order in which they are purged.
pub struct DeletionPlan {
    entries: Vec<BlockTargets>,
}

impl View for DeletionPlan {
    type V = PlanModel;

    open spec fn view(&self) -> PlanModel {
        plan_of(self.entries_view())
    }
}

impl DeletionPlan {
    /// The plan's blocks with their versions, in the order they are kept.
    pub closed spec fn entries_view(&self) -> Seq<EntryModel> {
        self.entries@.map_values(|e: BlockTargets| e@)
    }

    pub open spec fn wf(&self) -> bool {
        ascending(self.entries_view())
    }
}

impl DeletionPlan {
    /// An empty plan.
    pub fn new() -> (r: DeletionPlan)
        ensures
            r.wf(),
            r.entries_view() == Seq::<EntryModel>::empty(),
            r@ == PlanModel::empty(),
    {
        let r = DeletionPlan { entries: Vec::new() };
        assert(r.entries_view() =~= Seq::<EntryModel>::empty());
        assert(r@ =~= PlanModel::empty());
        r
    }

    /// The planned blocks with their versions, in ascending block order.
    pub fn entries(&self) -> (r: &Vec<BlockTargets>)
        ensures
            r@.map_values(|e: BlockTargets| e@) == self.entries_view(),
    {
        &self.entries
    }

    /// The number of planned blocks.
    pub fn block_count(&self) -> (r: usize)
        requires
            self.wf(),
        ensures
            r == self@.len(),
    {
        proof {
            lemma_plan_of_len(self.entries_view());
        }
        self.entries.len()
    }

    /// Records that `target` is to be purged from `block`.
    pub fn add(&mut self, block: String, target: DeletionTarget)
        requires
            old(self).wf(),
        ensures
            final(self).wf(),
            final(self)@ == plan_add(old(self)@, block@, target@),
    {
        let ghost ev = self.entries_view();
        let n = self.entries.len();
        let mut i: usize = 0;
        while i < n && id_less(self.entries[i].block.as_str(), block.as_str())
            invariant
                n == self.entries@.len(),
                ev == self.entries_view(),
                i <= n,
                forall|j: int| 0 <= j < i ==> id_lt(#[trigger] ev[j].0, block@),
            decreases n - i,
        {
            i = i + 1;
        }
        if i < n && self.entries[i].block == block {
            let ghost t = target@;
            let mut entry = self.entries.remove(i);
            entry.targets.push(target);
            self.entries.insert(i, entry);
            proof {
                assert(entry@.1 =~= ev[i as int].1.push(t));
                assert(self.entries_view() =~= ev.update(i as int, (block@, ev[i as int].1.push(t))));
                lemma_update_entry(ev, i as int, t);
            }
        } else {
            let ghost t = target@;
            let entry = BlockTargets { block, targets: vec![target] };
            assert(entry@.1 =~= seq![t]);
            let ghost e = entry@;
            self.entries.insert(i, entry);
            proof {
                assert(self.entries_view() =~= ev.insert(i as int, e));
                if i < n {
                    lemma_id_lt_total(ev[i as int].0, e.0);
                }
                lemma_insert_entry(ev, i as int, e.0, t);
            }
        }
    }
}

proof fn lemma_plan_of_at(entries: Seq<EntryModel>, i: int)
    requires
        ascending(entries),
        0 <= i < entries.len(),
    ensures
        plan_of(entries).contains_key(entries[i].0),
        plan_of(entries)[entries[i].0] == entries[i].1,
{
    let b = entries[i].0;
    assert(has_block(entries, b));
    let j = choose|j: int| 0 <= j < entries.len() && entries[j].0 == b;
    if j != i {
        lemma_id_lt_irreflexive(b);
    }
}

proof fn lemma_plan_of_len(entries: Seq<EntryModel>)
    requires
        ascending(entries),
    ensures
        plan_of(entries).len() == entries.len(),
{
    let keys = entries.map_values(|e: EntryModel| e.0);
    assert forall|i: int, j: int| 0 <= i < keys.len() && 0 <= j < keys.len() && i != j implies keys[i]
        != keys[j] by {
        assert(keys[i] == entries[i].0 && keys[j] == entries[j].0);
        if i < j {
            assert(id_lt(entries[i].0, entries[j].0));
        } else {
            assert(id_lt(entries[j].0, entries[i].0));
        }
        lemma_id_lt_irreflexive(keys[i]);
    }
    assert(keys.no_duplicates());
    keys.unique_seq_to_set();
    assert forall|b: Seq<char>| plan_of(entries).dom().contains(b) <==> keys.to_set().contains(
        b,
    ) by {
        if has_block(entries, b) {
            let i = choose|i: int| 0 <= i < entries.len() && entries[i].0 == b;
            assert(keys[i] == b);
        }
        if keys.to_set().contains(b) {
            let i = choose|i: int| 0 <= i < keys.len() && keys[i] == b;
            assert(entries[i].0 == b);
        }
    }
    assert(plan_of(entries).dom() =~= keys.to_set());
}

proof fn lemma_update_entry(ev: Seq<EntryModel>, i: int, t: TargetModel)
    requires
        ascending(ev),
        0 <= i < ev.len(),
    ensures
        ascending(ev.update(i, (ev[i].0, ev[i].1.push(t)))),
        plan_of(ev.update(i, (ev[i].0, ev[i].1.push(t)))) == plan_add(plan_of(ev), ev[i].0, t),
{
    let b = ev[i].0;
    let nv = ev.update(i, (b, ev[i].1.push(t)));
    lemma_plan_of_at(ev, i);
    assert forall|j: int, k: int| 0 <= j < k < nv.len() implies id_lt(
        #[trigger] nv[j].0,
        #[trigger] nv[k].0,
    ) by {
        assert(ev[j].0 == nv[j].0 && ev[k].0 == nv[k].0);
    }
    let goal = plan_add(plan_of(ev), b, t);
    assert forall|c: Seq<char>| #[trigger] has_block(nv, c) <==> goal.contains_key(c) by {
        if has_block(nv, c) {
            let j = choose|j: int| 0 <= j < nv.len() && nv[j].0 == c;
            assert(ev[j].0 == c);
        }
        if has_block(ev, c) {
            let j = choose|j: int| 0 <= j < ev.len() && ev[j].0 == c;
            assert(nv[j].0 == c);
        }
        if c == b {
            assert(nv[i].0 == c);
        }
    }
    assert forall|c: Seq<char>| goal.contains_key(c) implies plan_of(nv)[c] == goal[c] by {
        if c == b {
            lemma_plan_of_at(nv, i);
        } else {
            let j = choose|j: int| 0 <= j < ev.len() && ev[j].0 == c;
            lemma_plan_of_at(ev, j);
            lemma_plan_of_at(nv, j);
        }
    }
    assert(plan_of(nv) =~= goal);
}

proof fn lemma_insert_entry(ev: Seq<EntryModel>, i: int, b: Seq<char>, t: TargetModel)
    requires
        ascending(ev),
        0 <= i <= ev.len(),
        forall|j: int| 0 <= j < i ==> id_lt(#[trigger] ev[j].0, b),
        i < ev.len() ==> id_lt(b, ev[i].0),
    ensures
        ascending(ev.insert(i, (b, seq![t]))),
        plan_of(ev.insert(i, (b, seq![t]))) == plan_add(plan_of(ev), b, t),
{
    let nv = ev.insert(i, (b, seq![t]));
    assert forall|j: int, k: int| 0 <= j < k < nv.len() implies id_lt(
        #[trigger] nv[j].0,
        #[trigger] nv[k].0,
    ) by {
        if k < i {
            assert(nv[j] == ev[j] && nv[k] == ev[k]);
        } else if k == i {
            assert(nv[j] == ev[j]);
        } else if j == i {
            assert(nv[k] == ev[k - 1]);
            if k - 1 > i {
                lemma_id_lt_transitive(b, ev[i].0, ev[k - 1].0);
            }
        } else if j < i {
            assert(nv[j] == ev[j] && nv[k] == ev[k - 1]);
            lemma_id_lt_transitive(ev[j].0, b, ev[i].0);
            if k - 1 > i {
                lemma_id_lt_transitive(ev[j].0, ev[i].0, ev[k - 1].0);
            }
        } else {
            assert(nv[j] == ev[j - 1] && nv[k] == ev[k - 1]);
        }
    }
    assert(!has_block(ev, b)) by {
        if has_block(ev, b) {
            let j = choose|j: int| 0 <= j < ev.len() && ev[j].0 == b;
            if j > i {
                lemma_id_lt_transitive(b, ev[i].0, ev[j].0);
            }
            lemma_id_lt_irreflexive(b);
        }
    }
    let goal = plan_add(plan_of(ev), b, t);
    assert forall|c: Seq<char>| #[trigger] has_block(nv, c) <==> goal.contains_key(c) by {
        if has_block(nv, c) {
            let j = choose|j: int| 0 <= j < nv.len() && nv[j].0 == c;
            if j < i {
                assert(ev[j].0 == c);
            } else if j > i {
                assert(ev[j - 1].0 == c);
            }
        }
        if has_block(ev, c) {
            let j = choose|j: int| 0 <= j < ev.len() && ev[j].0 == c;
            if j < i {
                assert(nv[j].0 == c);
            } else {
                assert(nv[j + 1].0 == c);
            }
        }
        if c == b {
            assert(nv[i].0 == c);
        }
    }
    assert forall|c: Seq<char>| goal.contains_key(c) implies plan_of(nv)[c] == goal[c] by {
        if c == b {
            lemma_plan_of_at(nv, i);
        } else {
            let j = choose|j: int| 0 <= j < ev.len() && ev[j].0 == c;
            lemma_plan_of_at(ev, j);
            if j < i {
                lemma_plan_of_at(nv, j);
            } else {
                assert(nv[j + 1] == ev[j]);
                lemma_plan_of_at(nv, j + 1);
            }
        }
    }
    assert(plan_of(nv) =~= goal);
}

} // verus!
