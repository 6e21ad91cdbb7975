use thanos_minio_tiering::block_id::{block_id, id_less};
use thanos_minio_tiering::classify::{
    list_request, next_state, start_listing, Classifier, ClassifyError, Cursor, DeleteMarker,
    ListingState, ObjectVersion, VersionPage, PAGE_SIZE,
};
use thanos_minio_tiering::execute::{deletion_steps, DeletionStep, PACING_MS};
use thanos_minio_tiering::plan::DeletionPlan;

fn version(key: &str) -> ObjectVersion {
    ObjectVersion { key: key.to_string(), version_id: Some(format!("{key}-v")) }
}

fn marker(key: &str, version_id: Option<&str>) -> DeleteMarker {
    DeleteMarker { key: key.to_string(), version_id: version_id.map(|v| v.to_string()) }
}

fn last_page(versions: Vec<ObjectVersion>, delete_markers: Vec<DeleteMarker>) -> VersionPage {
    VersionPage {
        versions,
        delete_markers,
        is_truncated: false,
        next_key_marker: String::new(),
        next_version_id_marker: String::new(),
    }
}

fn truncated_page(
    versions: Vec<ObjectVersion>,
    delete_markers: Vec<DeleteMarker>,
    key_marker: &str,
    version_marker: &str,
) -> VersionPage {
    VersionPage {
        versions,
        delete_markers,
        is_truncated: true,
        next_key_marker: key_marker.to_string(),
        next_version_id_marker: version_marker.to_string(),
    }
}

fn plan_pairs(plan: &DeletionPlan) -> Vec<(String, Vec<(String, String)>)> {
    plan.entries()
        .iter()
        .map(|e| {
            (
                e.block.clone(),
                e.targets.iter().map(|t| (t.key.clone(), t.version_id.clone())).collect(),
            )
        })
        .collect()
}

fn step_pairs(steps: &[DeletionStep]) -> Vec<(String, String)> {
    steps.iter().map(|s| (s.key.clone(), s.version_id.clone())).collect()
}

fn owned(pairs: &[(&str, &str)]) -> Vec<(String, String)> {
    pairs.iter().map(|(k, v)| (k.to_string(), v.to_string())).collect()
}

fn skipped_of(outcome: &Result<thanos_minio_tiering::classify::PageOutcome, ClassifyError>) -> Vec<String> {
    match outcome {
        Ok(out) => out.skipped_keys.clone(),
        Err(_) => panic!("page was refused"),
    }
}

#[test]
fn block_id_is_first_segment() {
    assert_eq!(block_id("block123/chunk.bin"), Some("block123".to_string()));
    assert_eq!(block_id("01HX/chunks/000001"), Some("01HX".to_string()));
    assert_eq!(block_id("/lead"), Some(String::new()));
}

#[test]
fn block_id_of_key_without_separator_is_none() {
    assert_eq!(block_id("malformed"), None);
    assert_eq!(block_id(""), None);
}

#[test]
fn id_order_is_lexicographic() {
    assert!(id_less("a", "b"));
    assert!(!id_less("b", "a"));
    assert!(id_less("a", "ab"));
    assert!(!id_less("ab", "a"));
    assert!(!id_less("a", "a"));
    assert!(id_less("", "a"));
    assert!(id_less("z", "é"));
}

#[test]
fn malformed_version_key_is_skipped_and_reported() {
    let mut c = Classifier::new();
    let page = last_page(vec![version("malformed"), version("block123/chunk.bin")], vec![]);
    let out = c.absorb_page(&page);
    assert_eq!(skipped_of(&out), vec!["malformed".to_string()]);
    assert_eq!(c.observed_count(), 1);
    assert!(c.is_observed(&"block123".to_string()));
    assert!(!c.is_observed(&"malformed".to_string()));
}

#[test]
fn malformed_marker_is_skipped_even_without_version_id() {
    let mut c = Classifier::new();
    let page = last_page(vec![], vec![marker("loose", None), marker("loose2", Some("v1"))]);
    let out = c.absorb_page(&page);
    assert_eq!(skipped_of(&out), vec!["loose".to_string(), "loose2".to_string()]);
    assert_eq!(c.plan().block_count(), 0);
}

#[test]
fn missing_version_id_fails_page_and_changes_nothing() {
    let mut c = Classifier::new();
    let first = last_page(vec![version("a/1")], vec![marker("b/1", Some("v1"))]);
    assert!(c.absorb_page(&first).is_ok());
    let bad = last_page(
        vec![version("c/1")],
        vec![marker("d/1", Some("v2")), marker("e/1", None), marker("f/1", None)],
    );
    match c.absorb_page(&bad) {
        Err(ClassifyError::MissingVersionId { key }) => assert_eq!(key, "e/1"),
        Ok(_) => panic!("a marker without version id was accepted"),
    }
    assert_eq!(c.observed_count(), 1);
    assert!(!c.is_observed(&"c".to_string()));
    assert_eq!(
        plan_pairs(c.plan()),
        vec![("b".to_string(), owned(&[("b/1", "v1")]))]
    );
}

#[test]
fn observed_blocks_are_counted_once() {
    let mut c = Classifier::new();
    let page = last_page(vec![version("a/1"), version("a/2"), version("b/1"), version("a/3")], vec![]);
    assert!(c.absorb_page(&page).is_ok());
    assert_eq!(c.observed_count(), 2);
}

#[test]
fn end_to_end_single_marked_block() {
    let mut c = Classifier::new();
    let page = last_page(vec![version("a/1"), version("a/2")], vec![marker("b/1", Some("v9"))]);
    let out = c.absorb_page(&page);
    assert!(matches!(out, Ok(ref o) if matches!(o.next, ListingState::Done)));
    assert_eq!(c.observed_count(), 1);
    assert!(c.is_observed(&"a".to_string()));
    let plan = c.into_plan();
    assert_eq!(plan_pairs(&plan), vec![("b".to_string(), owned(&[("b/1", "v9")]))]);
    let steps = deletion_steps(&plan, false);
    let deletes: Vec<&DeletionStep> = steps.iter().filter(|s| s.issue_delete).collect();
    assert_eq!(deletes.len(), 1);
    assert_eq!(deletes[0].key, "b/1");
    assert_eq!(deletes[0].version_id, "v9");
}

#[test]
fn blocks_are_purged_in_ascending_order() {
    let mut c = Classifier::new();
    let page = last_page(
        vec![],
        vec![
            marker("c/1", Some("v1")),
            marker("a/2", Some("v2")),
            marker("b/1", Some("v3")),
            marker("a/1", Some("v4")),
            marker("ab/1", Some("v5")),
        ],
    );
    assert!(c.absorb_page(&page).is_ok());
    let plan = c.into_plan();
    assert_eq!(plan.block_count(), 4);
    let steps = deletion_steps(&plan, false);
    assert_eq!(
        step_pairs(&steps),
        owned(&[("a/2", "v2"), ("a/1", "v4"), ("ab/1", "v5"), ("b/1", "v3"), ("c/1", "v1")])
    );
}

#[test]
fn page_split_does_not_change_result() {
    let versions = ["x/1", "y/1", "bad", "x/2", "z/9"];
    let markers = [("m/1", "v1"), ("n/1", "v2"), ("m/2", "v3"), ("k/1", "v4")];

    let mut whole = Classifier::new();
    let page = last_page(
        versions.iter().map(|k| version(k)).collect(),
        markers.iter().map(|(k, v)| marker(k, Some(v))).collect(),
    );
    assert!(whole.absorb_page(&page).is_ok());

    let mut split = Classifier::new();
    let first_page = truncated_page(
        versions[..2].iter().map(|k| version(k)).collect(),
        markers[..1].iter().map(|(k, v)| marker(k, Some(v))).collect(),
        "y/1",
        "c1",
    );
    let second_page = truncated_page(vec![], markers[1..3].iter().map(|(k, v)| marker(k, Some(v))).collect(), "m/2", "c2");
    let third_page = last_page(
        versions[2..].iter().map(|k| version(k)).collect(),
        markers[3..].iter().map(|(k, v)| marker(k, Some(v))).collect(),
    );
    for p in [&first_page, &second_page, &third_page] {
        assert!(split.absorb_page(p).is_ok());
    }

    assert_eq!(whole.observed_count(), split.observed_count());
    for b in ["x", "y", "z"] {
        assert!(whole.is_observed(&b.to_string()));
        assert!(split.is_observed(&b.to_string()));
    }
    assert_eq!(plan_pairs(whole.plan()), plan_pairs(split.plan()));
    assert_eq!(
        plan_pairs(split.plan()),
        vec![
            ("k".to_string(), owned(&[("k/1", "v4")])),
            ("m".to_string(), owned(&[("m/1", "v1"), ("m/2", "v3")])),
            ("n".to_string(), owned(&[("n/1", "v2")])),
        ]
    );
}

#[test]
fn rerun_after_purge_plans_nothing() {
    let versions = vec!["a/1", "a/2", "b/0"];
    let mut markers = vec![("b/1", "v9"), ("b/2", "v8"), ("c/1", "v7"), ("stray", "v6")];

    let mut first = Classifier::new();
    let page = last_page(
        versions.iter().map(|k| version(k)).collect(),
        markers.iter().map(|(k, v)| marker(k, Some(v))).collect(),
    );
    assert!(first.absorb_page(&page).is_ok());
    let plan = first.into_plan();
    let steps = deletion_steps(&plan, false);
    assert_eq!(steps.len(), 3);
    markers.retain(|(k, v)| !steps.iter().any(|s| s.issue_delete && s.key == *k && s.version_id == *v));
    assert_eq!(markers, vec![("stray", "v6")]);

    let mut second = Classifier::new();
    let page = last_page(
        versions.iter().map(|k| version(k)).collect(),
        markers.iter().map(|(k, v)| marker(k, Some(v))).collect(),
    );
    assert!(second.absorb_page(&page).is_ok());
    let plan = second.into_plan();
    assert_eq!(plan.block_count(), 0);
    assert!(deletion_steps(&plan, false).is_empty());
}

#[test]
fn dry_run_sends_no_delete_but_keeps_steps_and_pauses() {
    let mut c = Classifier::new();
    let page = last_page(vec![], vec![marker("b/1", Some("v1")), marker("a/1", Some("v2"))]);
    assert!(c.absorb_page(&page).is_ok());
    let plan = c.into_plan();
    let dry = deletion_steps(&plan, true);
    let live = deletion_steps(&plan, false);
    assert_eq!(dry.len(), 2);
    assert_eq!(step_pairs(&dry), step_pairs(&live));
    assert!(dry.iter().all(|s| !s.issue_delete && s.pause_ms == PACING_MS));
    assert!(live.iter().all(|s| s.issue_delete && s.pause_ms == 100));
}

#[test]
fn empty_plan_has_no_steps() {
    let plan = DeletionPlan::new();
    assert_eq!(plan.block_count(), 0);
    assert!(deletion_steps(&plan, false).is_empty());
    assert!(deletion_steps(&plan, true).is_empty());
}

#[test]
fn listing_starts_without_cursor() {
    assert!(matches!(start_listing(), ListingState::Listing { cursor: None }));
    let r = list_request(&None);
    assert_eq!(r.key_marker, None);
    assert_eq!(r.version_id_marker, None);
    assert_eq!(r.max_keys, 100);
    assert_eq!(PAGE_SIZE, 100);
}

#[test]
fn listing_resumes_from_cursor() {
    let cursor = Cursor { key_marker: "k/9".to_string(), version_id_marker: "v42".to_string() };
    let r = list_request(&Some(cursor));
    assert_eq!(r.key_marker, Some("k/9".to_string()));
    assert_eq!(r.version_id_marker, Some("v42".to_string()));
    assert_eq!(r.max_keys, 100);
}

#[test]
fn truncated_page_continues_and_last_page_ends() {
    let p = truncated_page(vec![], vec![], "next/key", "next-version");
    match next_state(&p) {
        ListingState::Listing { cursor: Some(c) } => {
            assert_eq!(c.key_marker, "next/key");
            assert_eq!(c.version_id_marker, "next-version");
        }
        _ => panic!("a truncated page must continue"),
    }
    let last = last_page(vec![], vec![]);
    assert!(matches!(next_state(&last), ListingState::Done));
    let mut c = Classifier::new();
    match c.absorb_page(&p) {
        Ok(out) => assert!(matches!(out.next, ListingState::Listing { cursor: Some(_) })),
        Err(_) => panic!("page was refused"),
    }
}
