//! Properties of a whole run: re-running after a purge plans nothing, the
//! split of the listing into pages does not matter, and a dry run differs
//! from a live run only in the delete requests it withholds.

use vstd::prelude::*;

use crate::classify::{
    classification, marker_defective, markers_complete, observe_keys, plan_markers, MarkerModel,
};
use crate::execute::schedule_of;
use crate::plan::{plan_add, PlanModel, TargetModel};

verus! {

/// Every version that `plan` targets, over all its blocks.
pub open spec fn plan_targets(plan: PlanModel) -> Set<TargetModel> {
    Set::new(|t: TargetModel| exists|b: Seq<char>| plan.contains_key(b) && plan[b].contains(t))
}

/// A marker with a version id that `targets` holds.
pub open spec fn purged(targets: Set<TargetModel>, m: MarkerModel) -> bool {
    m.1 matches Some(v) && targets.contains((m.0, v))
}

/// The delete markers that remain in the store once the versions in
/// `targets` were deleted, in listing order.
pub open spec fn remaining_markers(markers: Seq<MarkerModel>, targets: Set<TargetModel>) -> Seq<
    MarkerModel,
>
    decreases markers.len(),
{
    if markers.len() == 0 {
        Seq::empty()
    } else {
        let before = remaining_markers(markers.drop_last(), targets);
        if purged(targets, markers.last()) {
            before
        } else {
            before.push(markers.last())
        }
    }
}

/// A page as (keys of its versions, its delete markers).
pub type PageModel = (Seq<Seq<char>>, Seq<MarkerModel>);

/// The observed blocks and the plan after absorbing `pages` in turn.
pub open spec fn absorb_pages(state: (Set<Seq<char>>, PlanModel), pages: Seq<PageModel>) -> (
    Set<Seq<char>>,
    PlanModel,
)
    decreases pages.len(),
{
    if pages.len() == 0 {
        state
    } else {
        let before = absorb_pages(state, pages.drop_last());
        (observe_keys(before.0, pages.last().0), plan_markers(before.1, pages.last().1))
    }
}

/// The version keys of all pages, page after page.
pub open spec fn all_version_keys(pages: Seq<PageModel>) -> Seq<Seq<char>>
    decreases pages.len(),
{
    if pages.len() == 0 {
        Seq::empty()
    } else {
        all_version_keys(pages.drop_last()) + pages.last().0
    }
}

/// The delete markers of all pages, page after page.
pub open spec fn all_markers(pages: Seq<PageModel>) -> Seq<MarkerModel>
    decreases pages.len(),
{
    if pages.len() == 0 {
        Seq::empty()
    } else {
        all_markers(pages.drop_last()) + pages.last().1
    }
}

proof fn lemma_plan_add_targets(plan: PlanModel, b: Seq<char>, t: TargetModel)
    ensures
        plan_targets(plan_add(plan, b, t)).contains(t),
        plan_targets(plan) <= plan_targets(plan_add(plan, b, t)),
{
    let after = plan_add(plan, b, t);
    assert(after.contains_key(b) && after[b].contains(t)) by {
        assert(after[b][after[b].len() - 1] == t);
    }
    assert(plan_targets(after).contains(t));
    assert forall|u: TargetModel| plan_targets(plan).contains(u) implies plan_targets(
        after,
    ).contains(u) by {
        let c = choose|c: Seq<char>| plan.contains_key(c) && plan[c].contains(u);
        if c == b {
            let k = choose|k: int| 0 <= k < plan[c].len() && plan[c][k] == u;
            assert(after[c][k] == u);
            assert(after.contains_key(c) && after[c].contains(u));
        } else {
            assert(after.contains_key(c) && after[c].contains(u));
        }
    }
}

proof fn lemma_plan_markers_targets(plan: PlanModel, markers: Seq<MarkerModel>)
    ensures
        plan_targets(plan) <= plan_targets(plan_markers(plan, markers)),
        forall|i: int|
            #![trigger markers[i]]
            0 <= i < markers.len() && block_of_is_some(markers[i]) && markers[i].1 is Some
                ==> plan_targets(plan_markers(plan, markers)).contains(
                (markers[i].0, markers[i].1->Some_0),
            ),
    decreases markers.len(),
{
    if markers.len() > 0 {
        let rest = markers.drop_last();
        lemma_plan_markers_targets(plan, rest);
        let before = plan_markers(plan, rest);
        let m = markers.last();
        if block_of_is_some(m) && m.1 is Some {
            let b = crate::block_id::block_of(m.0)->Some_0;
            lemma_plan_add_targets(before, b, (m.0, m.1->Some_0));
        }
        assert forall|i: int|
            #![trigger markers[i]]
            0 <= i < markers.len() && block_of_is_some(markers[i]) && markers[i].1 is Some
                implies plan_targets(plan_markers(plan, markers)).contains(
            (markers[i].0, markers[i].1->Some_0),
        ) by {
            if i < markers.len() - 1 {
                assert(rest[i] == markers[i]);
            }
        }
    }
}

pub open spec fn block_of_is_some(m: MarkerModel) -> bool {
    crate::block_id::block_of(m.0) is Some
}

proof fn lemma_remaining_plans_nothing(markers: Seq<MarkerModel>, targets: Set<TargetModel>)
    requires
        forall|i: int|
            #![trigger markers[i]]
            0 <= i < markers.len() && block_of_is_some(markers[i]) && markers[i].1 is Some
                ==> targets.contains((markers[i].0, markers[i].1->Some_0)),
        markers_complete(markers),
    ensures
        plan_markers(PlanModel::empty(), remaining_markers(markers, targets)) == PlanModel::empty(),
        markers_complete(remaining_markers(markers, targets)),
    decreases markers.len(),
{
    if markers.len() > 0 {
        let rest = markers.drop_last();
        assert forall|i: int| 0 <= i < rest.len() implies !marker_defective(#[trigger] rest[i]) by {
            assert(rest[i] == markers[i]);
        }
        assert forall|i: int|
            #![trigger rest[i]]
            0 <= i < rest.len() && block_of_is_some(rest[i]) && rest[i].1 is Some
                implies targets.contains((rest[i].0, rest[i].1->Some_0)) by {
            assert(rest[i] == markers[i]);
        }
        lemma_remaining_plans_nothing(rest, targets);
        let m = markers.last();
        assert(!marker_defective(markers[markers.len() - 1]));
        if !purged(targets, m) {
            let kept = remaining_markers(rest, targets);
            let after = kept.push(m);
            assert(after.drop_last() =~= kept);
            assert forall|i: int| 0 <= i < after.len() implies !marker_defective(
                #[trigger] after[i],
            ) by {
                if i < kept.len() {
                    assert(after[i] == kept[i]);
                }
            }
        }
    }
}

/// Re-running over the store that a completed purge left behind plans
/// nothing: once every version that the plan of a listing targets is
/// deleted, the delete markers that remain give an empty plan (and still
/// none of them lacks its version id).
pub proof fn lemma_rerun_after_purge_plans_nothing(
    keys: Seq<Seq<char>>,
    markers: Seq<MarkerModel>,
    later_keys: Seq<Seq<char>>,
)
    requires
        markers_complete(markers),
    ensures
        ({
            let rest = remaining_markers(markers, plan_targets(classification(keys, markers).1));
            &&& markers_complete(rest)
            &&& classification(later_keys, rest).1 == PlanModel::empty()
        }),
{
    lemma_plan_markers_targets(PlanModel::empty(), markers);
    lemma_remaining_plans_nothing(markers, plan_targets(classification(keys, markers).1));
}

proof fn lemma_observe_keys_concat(s: Set<Seq<char>>, a: Seq<Seq<char>>, b: Seq<Seq<char>>)
    ensures
        observe_keys(observe_keys(s, a), b) == observe_keys(s, a + b),
    decreases b.len(),
{
    if b.len() == 0 {
        assert(a + b =~= a);
    } else {
        lemma_observe_keys_concat(s, a, b.drop_last());
        assert((a + b).drop_last() =~= a + b.drop_last());
        assert((a + b).last() == b.last());
    }
}

proof fn lemma_plan_markers_concat(p: PlanModel, a: Seq<MarkerModel>, b: Seq<MarkerModel>)
    ensures
        plan_markers(plan_markers(p, a), b) == plan_markers(p, a + b),
        markers_complete(a + b) <==> markers_complete(a) && markers_complete(b),
    decreases b.len(),
{
    if b.len() == 0 {
        assert(a + b =~= a);
    } else {
        lemma_plan_markers_concat(p, a, b.drop_last());
        assert((a + b).drop_last() =~= a + b.drop_last());
        assert((a + b).last() == b.last());
    }
    if markers_complete(a + b) {
        assert forall|i: int| 0 <= i < a.len() implies !marker_defective(#[trigger] a[i]) by {
            assert((a + b)[i] == a[i]);
        }
        assert forall|i: int| 0 <= i < b.len() implies !marker_defective(#[trigger] b[i]) by {
            assert((a + b)[a.len() + i] == b[i]);
        }
    }
}

/// Absorbing pages one after another gives what absorbing all their
/// entries as one page gives, and every page is complete exactly when all
/// the markers together are.
pub proof fn lemma_pages_fold_as_one(state: (Set<Seq<char>>, PlanModel), pages: Seq<PageModel>)
    ensures
        absorb_pages(state, pages) == (
            observe_keys(state.0, all_version_keys(pages)),
            plan_markers(state.1, all_markers(pages)),
        ),
        markers_complete(all_markers(pages)) <==> forall|i: int|
            0 <= i < pages.len() ==> markers_complete(#[trigger] pages[i].1),
    decreases pages.len(),
{
    if pages.len() == 0 {
        assert(observe_keys(state.0, Seq::empty()) == state.0);
        assert(plan_markers(state.1, Seq::empty()) == state.1);
        assert(markers_complete(Seq::<MarkerModel>::empty()));
    } else {
        let rest = pages.drop_last();
        lemma_pages_fold_as_one(state, rest);
        lemma_observe_keys_concat(state.0, all_version_keys(rest), pages.last().0);
        lemma_plan_markers_concat(state.1, all_markers(rest), pages.last().1);
        if forall|i: int| 0 <= i < pages.len() ==> markers_complete(#[trigger] pages[i].1) {
            assert forall|i: int| 0 <= i < rest.len() implies markers_complete(
                #[trigger] rest[i].1,
            ) by {
                assert(rest[i] == pages[i]);
            }
        }
        if markers_complete(all_markers(pages)) {
            assert forall|i: int| 0 <= i < pages.len() implies markers_complete(
                #[trigger] pages[i].1,
            ) by {
                if i < rest.len() {
                    assert(rest[i] == pages[i]);
                }
            }
        }
    }
}

/// However a listing is split into pages, the observed blocks and the plan
/// come out the same.
pub proof fn lemma_page_split_irrelevant(pages_a: Seq<PageModel>, pages_b: Seq<PageModel>)
    requires
        all_version_keys(pages_a) == all_version_keys(pages_b),
        all_markers(pages_a) == all_markers(pages_b),
    ensures
        absorb_pages((Set::empty(), PlanModel::empty()), pages_a) == absorb_pages(
            (Set::empty(), PlanModel::empty()),
            pages_b,
        ),
{
    lemma_pages_fold_as_one((Set::empty(), PlanModel::empty()), pages_a);
    lemma_pages_fold_as_one((Set::empty(), PlanModel::empty()), pages_b);
}

/// A dry run has the same steps as a live run, in the same order, with the
/// same versions and the same pauses, but sends no delete request.
pub proof fn lemma_dry_run_sends_no_delete(targets: Seq<TargetModel>)
    ensures
        schedule_of(targets, true).len() == schedule_of(targets, false).len(),
        forall|i: int|
            0 <= i < targets.len() ==> {
                let dry = #[trigger] schedule_of(targets, true)[i];
                let live = schedule_of(targets, false)[i];
                &&& !dry.2
                &&& live.2
                &&& dry.0 == live.0
                &&& dry.1 == live.1
                &&& dry.3 == live.3
            },
{
}

} // verus!
