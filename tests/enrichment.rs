use navgator::enrich::{Enrichment, MetaResult, TagResult, DATE_PLACEHOLDER};
use navgator::pipeline::SortMeta;

#[test]
fn second_tag_request_while_pending_is_a_no_op() {
    let mut e = Enrichment::new(3);
    assert_eq!(e.ensure_tags_for_paths(&[1]), vec![1]);
    assert_eq!(e.ensure_tags_for_paths(&[1]), Vec::<usize>::new());
    assert_eq!(e.ensure_tags_for_paths(&[0, 1, 0]), vec![0]);
    e.apply_tag_result(TagResult { index: 1, tags: vec!["x".to_string()] });
    assert!(!e.tag_in_flight[1]);
    assert_eq!(e.ensure_tags_for_paths(&[1, 2]), vec![2]);
    assert_eq!(e.tags[1], Some(vec!["x".to_string()]));
}

#[test]
fn date_requests_skip_cached_and_pending() {
    let mut e = Enrichment::new(4);
    assert_eq!(e.ensure_dates_for_paths(&[2, 9, 2]), vec![2]);
    e.apply_date_result(MetaResult { index: 2, display: None, modified_epoch: Some(5), created_epoch: None });
    assert_eq!(e.dates[2].as_deref(), Some(DATE_PLACEHOLDER));
    assert_eq!(e.meta[2], Some(SortMeta { modified_epoch: Some(5), created_epoch: None }));
    assert_eq!(e.ensure_dates_for_paths(&[2]), Vec::<usize>::new());
    assert_eq!(e.spawn_bulk_metadata_fetch(), vec![0, 1, 3]);
    assert_eq!(e.spawn_bulk_metadata_fetch(), Vec::<usize>::new());
}

#[test]
fn bulk_tag_sweep_covers_the_rest() {
    let mut e = Enrichment::new(3);
    e.ensure_tags_for_paths(&[0]);
    e.record_tags(2, vec!["t".to_string()]);
    assert_eq!(e.spawn_bulk_tag_fetch(), vec![1]);
    assert!(e.tag_in_flight[0] && e.tag_in_flight[1] && !e.tag_in_flight[2]);
}
