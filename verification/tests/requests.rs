use taodb::{NarrativeRecallRequest, SensoryRecallRequest};

#[test]
fn a04_sensory_request_default() {
    let req = SensoryRecallRequest::default();
    assert_eq!(req.top_k, 10);
    assert_eq!(req.narrative_span_days, 0);
    assert!(req.senses.is_empty());
}

#[test]
fn a05_narrative_request_default() {
    let req = NarrativeRecallRequest::default();
    assert_eq!(req.narrative_span_days, 30);
    assert_eq!(req.top_k, 10);
}
