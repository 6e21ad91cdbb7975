//! Classification of listed object versions and delete markers into the
//! observed blocks and the deletion plan, one listing page at a time, and
//! the listing state machine that drives the pages.

use vstd::prelude::*;

use crate::block_id::{block_id, block_of};
use crate::plan::{plan_add, DeletionPlan, DeletionTarget, PlanModel};

verus! {

/// How many entries one listing request asks for.
pub const PAGE_SIZE: usize = 100;

/// A delete marker as (object key, version id if the store gave one).
pub type MarkerModel = (Seq<char>, Option<Seq<char>>);

/// One stored version of an object, as listed.
pub struct ObjectVersion {
    pub key: String,
    pub version_id: Option<String>,
}

/// A delete marker placed over an object key, as listed.
pub struct DeleteMarker {
    pub key: String,
    pub version_id: Option<String>,
}

impl View for DeleteMarker {
    type V = MarkerModel;

    open spec fn view(&self) -> MarkerModel {
        (
            self.key@,
            match self.version_id {
                Some(v) => Some(v@),
                None => None,
            },
        )
    }
}

/// Where a truncated listing resumes.
pub struct Cursor {
    pub key_marker: String,
    pub version_id_marker: String,
}

/// One page of the version listing.
pub struct VersionPage {
    pub versions: Vec<ObjectVersion>,
    pub delete_markers: Vec<DeleteMarker>,
    pub is_truncated: bool,
    pub next_key_marker: String,
    pub next_version_id_marker: String,
}

impl VersionPage {
    pub open spec fn version_keys(&self) -> Seq<Seq<char>> {
        self.versions@.map_values(|v: ObjectVersion| v.key@)
    }

    pub open spec fn markers(&self) -> Seq<MarkerModel> {
        self.delete_markers@.map_values(|m: DeleteMarker| m@)
    }

    pub open spec fn marker_keys(&self) -> Seq<Seq<char>> {
        self.delete_markers@.map_values(|m: DeleteMarker| m.key@)
    }
}

/// The parameters of one listing request.
pub struct ListRequest {
    pub key_marker: Option<String>,
    pub version_id_marker: Option<String>,
    pub max_keys: usize,
}

/// The listing state machine: more pages to fetch (from the start, or from a
/// cursor), or done.
pub enum ListingState {
    Listing { cursor: Option<Cursor> },
    Done,
}

/// What absorbing a page tells the caller: where the listing goes next, and
/// the keys that were skipped because they do not follow the block layout
/// (versions' first, then delete markers', each in listing order).
pub struct PageOutcome {
    pub next: ListingState,
    pub skipped_keys: Vec<String>,
}

/// Why a page could not be classified.
pub enum ClassifyError {
    /// A delete marker under a block came without a version id.
    MissingVersionId { key: String },
}

/// `next` is the state that follows `page`: resume from the page's markers
/// when it was truncated, else done.
pub open spec fn follows_page(next: ListingState, page: VersionPage) -> bool {
    match next {
        ListingState::Listing { cursor: Some(c) } => {
            &&& page.is_truncated
            &&& c.key_marker@ == page.next_key_marker@
            &&& c.version_id_marker@ == page.next_version_id_marker@
        },
        ListingState::Listing { cursor: None } => false,
        ListingState::Done => !page.is_truncated,
    }
}

/// The observed blocks after the versions with `keys` were seen.
pub open spec fn observe_keys(observed: Set<Seq<char>>, keys: Seq<Seq<char>>) -> Set<Seq<char>>
    decreases keys.len(),
{
    if keys.len() == 0 {
        observed
    } else {
        let before = observe_keys(observed, keys.drop_last());
        match block_of(keys.last()) {
            Some(b) => before.insert(b),
            None => before,
        }
    }
}

/// The plan after `markers` were seen: each marker under a block adds its
/// key and version id to that block.
pub open spec fn plan_markers(plan: PlanModel, markers: Seq<MarkerModel>) -> PlanModel
    decreases markers.len(),
{
    if markers.len() == 0 {
        plan
    } else {
        let before = plan_markers(plan, markers.drop_last());
        let m = markers.last();
        match (block_of(m.0), m.1) {
            (Some(b), Some(v)) => plan_add(before, b, (m.0, v)),
            _ => before,
        }
    }
}

/// A marker under a block, but without a version id.
pub open spec fn marker_defective(m: MarkerModel) -> bool {
    block_of(m.0) is Some && m.1 is None
}

pub open spec fn markers_complete(markers: Seq<MarkerModel>) -> bool {
    forall|i: int| 0 <= i < markers.len() ==> !marker_defective(#[trigger] markers[i])
}

/// The keys, in order, that do not follow the block layout.
pub open spec fn unclassified(keys: Seq<Seq<char>>) -> Seq<Seq<char>>
    decreases keys.len(),
{
    if keys.len() == 0 {
        Seq::empty()
    } else {
        let before = unclassified(keys.drop_last());
        if block_of(keys.last()) is None {
            before.push(keys.last())
        } else {
            before
        }
    }
}

/// The classification of a whole listing given as one run of versions and
/// one run of delete markers, from nothing.
pub open spec fn classification(keys: Seq<Seq<char>>, markers: Seq<MarkerModel>) -> (
    Set<Seq<char>>,
    PlanModel,
) {
    (observe_keys(Set::empty(), keys), plan_markers(PlanModel::empty(), markers))
}

/// The request that fetches the page at `cursor` (the first page when there
/// is none).
pub fn list_request(cursor: &Option<Cursor>) -> (r: ListRequest)
    ensures
        r.max_keys == PAGE_SIZE,
        match cursor {
            Some(c) => {
                &&& r.key_marker matches Some(k) && k@ == c.key_marker@
                &&& r.version_id_marker matches Some(v) && v@ == c.version_id_marker@
            },
            None => r.key_marker is None && r.version_id_marker is None,
        },
{
    match cursor {
        Some(c) => ListRequest {
            key_marker: Some(c.key_marker.clone()),
            version_id_marker: Some(c.version_id_marker.clone()),
            max_keys: PAGE_SIZE,
        },
        None => ListRequest { key_marker: None, version_id_marker: None, max_keys: PAGE_SIZE },
    }
}

/// The initial state of a listing: fetch the first page.
pub fn start_listing() -> (r: ListingState)
    ensures
        r matches ListingState::Listing { cursor: None },
{
    ListingState::Listing { cursor: None }
}

/// The state after `page`.
pub fn next_state(page: &VersionPage) -> (r: ListingState)
    ensures
        follows_page(r, *page),
{
    if page.is_truncated {
        ListingState::Listing {
            cursor: Some(
                Cursor {
                    key_marker: page.next_key_marker.clone(),
                    version_id_marker: page.next_version_id_marker.clone(),
                },
            ),
        }
    } else {
        ListingState::Done
    }
}

/// The blocks observed so far and the deletion plan built so far.
pub struct Classifier {
    observed: Vec<String>,
    plan: DeletionPlan,
}

impl View for Classifier {
    type V = (Set<Seq<char>>, PlanModel);

    closed spec fn view(&self) -> (Set<Seq<char>>, PlanModel) {
        (self.observed_seq().to_set(), self.plan@)
    }
}

impl Classifier {
    closed spec fn observed_seq(&self) -> Seq<Seq<char>> {
        self.observed@.map_values(|s: String| s@)
    }

    pub closed spec fn wf(&self) -> bool {
        &&& self.observed_seq().no_duplicates()
        &&& self.plan.wf()
    }

    /// A classifier that has seen nothing.
    pub fn new() -> (r: Classifier)
        ensures
            r.wf(),
            r@ == (Set::<Seq<char>>::empty(), PlanModel::empty()),
    {
        let r = Classifier { observed: Vec::new(), plan: DeletionPlan::new() };
        assert(r.observed_seq().to_set() =~= Set::<Seq<char>>::empty());
        r
    }

    /// The number of blocks observed.
    pub fn observed_count(&self) -> (r: usize)
        requires
            self.wf(),
        ensures
            r == self@.0.len(),
    {
        proof {
            self.observed_seq().unique_seq_to_set();
        }
        self.observed.len()
    }

    /// Whether `block` was observed.
    pub fn is_observed(&self, block: &String) -> (r: bool)
        ensures
            r == self@.0.contains(block@),
    {
        let n = self.observed.len();
        let mut i: usize = 0;
        while i < n
            invariant
                n == self.observed@.len(),
                i <= n,
                forall|j: int| 0 <= j < i ==> self.observed_seq()[j] != block@,
            decreases n - i,
        {
            if self.observed[i] == *block {
                assert(self.observed_seq()[i as int] == block@);
                return true;
            }
            i = i + 1;
        }
        false
    }

    /// The plan built so far.
    pub fn plan(&self) -> (r: &DeletionPlan)
        requires
            self.wf(),
        ensures
            r.wf(),
            r@ == self@.1,
    {
        &self.plan
    }

    /// Ends classification, handing out the plan.
    pub fn into_plan(self) -> (r: DeletionPlan)
        requires
            self.wf(),
        ensures
            r.wf(),
            r@ == self@.1,
    {
        self.plan
    }

    fn observe(&mut self, block: String)
        requires
            old(self).wf(),
        ensures
            final(self).wf(),
            final(self)@ == (old(self)@.0.insert(block@), old(self)@.1),
    {
        if !self.is_observed(&block) {
            let ghost before = self.observed_seq();
            self.observed.push(block);
            proof {
                let after = self.observed_seq();
                assert(after =~= before.push(block@));
                assert forall|x: Seq<char>| #[trigger]
                    after.to_set().contains(x) <==> before.to_set().insert(block@).contains(x) by {
                    if before.contains(x) {
                        let j = choose|j: int| 0 <= j < before.len() && before[j] == x;
                        assert(after[j] == x);
                    }
                    if x == block@ {
                        assert(after[before.len() as int] == x);
                    }
                    if after.contains(x) {
                        let j = choose|j: int| 0 <= j < after.len() && after[j] == x;
                        if j < before.len() {
                            assert(before[j] == x);
                        }
                    }
                }
            }
        }
        assert(self@.0 =~= old(self)@.0.insert(block@));
    }

    /// Classifies one page: each version under a block marks its block as
    /// observed, each delete marker under a block adds its key and version
    /// id to that block's plan. Keys outside the block layout are skipped
    /// and reported. A delete marker under a block without a version id
    /// fails the page, which then changes nothing.
    pub fn absorb_page(&mut self, page: &VersionPage) -> (r: Result<PageOutcome, ClassifyError>)
        requires
            old(self).wf(),
        ensures
            final(self).wf(),
            r is Ok <==> markers_complete(page.markers()),
            r matches Ok(out) ==> {
                &&& final(self)@.0 == observe_keys(old(self)@.0, page.version_keys())
                &&& final(self)@.1 == plan_markers(old(self)@.1, page.markers())
                &&& follows_page(out.next, *page)
                &&& out.skipped_keys@.map_values(|s: String| s@) == unclassified(
                    page.version_keys(),
                ) + unclassified(page.marker_keys())
            },
            r matches Err(ClassifyError::MissingVersionId { key }) ==> {
                &&& final(self)@ == old(self)@
                &&& exists|i: int|
                    0 <= i < page.markers().len() && marker_defective(#[trigger] page.markers()[i])
                        && page.markers()[i].0 == key@ && markers_complete(
                        page.markers().take(i),
                    )
            },
    {
        let ghost ms = page.markers();
        let m = page.delete_markers.len();
        let mut i: usize = 0;
        while i < m
            invariant
                m == ms.len(),
                ms == page.markers(),
                i <= m,
                markers_complete(ms.take(i as int)),
                self.wf(),
                self@ == old(self)@,
            decreases m - i,
        {
            let marker = &page.delete_markers[i];
            assert(ms[i as int] == marker@);
            if marker.version_id.is_none() {
                if block_id(marker.key.as_str()).is_some() {
                    return Err(ClassifyError::MissingVersionId { key: marker.key.clone() });
                }
            }
            assert(ms.take(i + 1) =~= ms.take(i as int).push(ms[i as int]));
            i = i + 1;
        }
        assert(ms.take(m as int) =~= ms);
        let ghost keys = page.version_keys();
        let ghost start = self@;
        let mut skipped: Vec<String> = Vec::new();
        let n = page.versions.len();
        let mut i: usize = 0;
        while i < n
            invariant
                self.wf(),
                n == keys.len(),
                keys == page.version_keys(),
                i <= n,
                self@.0 == observe_keys(start.0, keys.take(i as int)),
                self@.1 == start.1,
                skipped@.map_values(|s: String| s@) == unclassified(keys.take(i as int)),
            decreases n - i,
        {
            let key = &page.versions[i].key;
            assert(keys.take(i + 1).drop_last() =~= keys.take(i as int));
            let ghost before = skipped@.map_values(|s: String| s@);
            match block_id(key.as_str()) {
                Some(b) => {
                    self.observe(b);
                },
                None => {
                    skipped.push(key.clone());
                    assert(skipped@.map_values(|s: String| s@) =~= before.push(key@));
                },
            }
            i = i + 1;
        }
        assert(keys.take(n as int) =~= keys);
        let ghost mkeys = page.marker_keys();
        let ghost skipped_versions = skipped@.map_values(|s: String| s@);
        let mut i: usize = 0;
        while i < m
            invariant
                self.wf(),
                m == ms.len(),
                ms == page.markers(),
                mkeys == page.marker_keys(),
                markers_complete(ms),
                i <= m,
                self@.0 == observe_keys(start.0, keys),
                self@.1 == plan_markers(start.1, ms.take(i as int)),
                skipped@.map_values(|s: String| s@) == skipped_versions + unclassified(
                    mkeys.take(i as int),
                ),
            decreases m - i,
        {
            let marker = &page.delete_markers[i];
            assert(ms[i as int] == marker@);
            assert(mkeys[i as int] == marker.key@);
            assert(ms.take(i + 1).drop_last() =~= ms.take(i as int));
            assert(mkeys.take(i + 1).drop_last() =~= mkeys.take(i as int));
            let ghost before = skipped@.map_values(|s: String| s@);
            match block_id(marker.key.as_str()) {
                Some(b) => {
                    assert(!marker_defective(ms[i as int]));
                    match &marker.version_id {
                        Some(v) => {
                            let target = DeletionTarget {
                                key: marker.key.clone(),
                                version_id: v.clone(),
                            };
                            self.plan.add(b, target);
                        },
                        None => {},
                    }
                },
                None => {
                    skipped.push(marker.key.clone());
                    assert(skipped@.map_values(|s: String| s@) =~= before.push(marker.key@));
                },
            }
            i = i + 1;
        }
        assert(ms.take(m as int) =~= ms);
        assert(mkeys.take(m as int) =~= mkeys);
        Ok(PageOutcome { next: next_state(page), skipped_keys: skipped })
    }
}

} // verus!
