use rollout_policy::GraphQuery;
use rollout_policy::population::PopulationTracker;
use rollout_policy::population::pe_record_metrics;

fn query_with_uuid(node_uuid: Option<&str>) -> GraphQuery {
    GraphQuery {
        basearch: None,
        stream: None,
        rollout_wariness: None,
        node_uuid: node_uuid.map(String::from),
    }
}

#[test]
fn first_sighting_is_new_and_the_second_is_not() {
    let mut tracker = PopulationTracker::new(1024 * 1024, 1_000);
    assert!(tracker.record("client-a"));
    assert!(!tracker.record("client-a"));
}

#[test]
fn distinct_identifiers_are_each_new_once() {
    let mut tracker = PopulationTracker::new(1024 * 1024, 1_000);
    assert!(tracker.record("client-a"));
    assert!(tracker.record("client-b"));
    assert!(!tracker.record("client-a"));
    assert!(!tracker.record("client-b"));
}

#[test]
fn repeated_requests_count_one_unique_client() {
    let mut tracker = PopulationTracker::new(1024 * 1024, 1_000);
    let q = query_with_uuid(Some("0644e786-6a08-4c6a-9c0b-7d8d8e0ad0b0"));
    let mut unique: u64 = 0;
    if pe_record_metrics(&mut tracker, &q) {
        unique += 1;
    }
    if pe_record_metrics(&mut tracker, &q) {
        unique += 1;
    }
    assert_eq!(unique, 1);
}

#[test]
fn an_anonymous_query_records_nothing() {
    let mut tracker = PopulationTracker::new(1024 * 1024, 1_000);
    let anon = query_with_uuid(None);
    assert!(!pe_record_metrics(&mut tracker, &anon));
    // The identifier seen next is still a first sighting.
    assert!(pe_record_metrics(&mut tracker, &query_with_uuid(Some("client-a"))));
}
