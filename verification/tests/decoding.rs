use structured_json_pipeline::decoding::{flan_decoding, qwen_decoding, GreedyDecoding};

#[test]
fn flan_decoding_stops_at_end_token() {
    let mut d = flan_decoding();
    assert_eq!(d.tokens, vec![0]);
    assert!(d.wants_step());
    d.observe(42);
    d.observe(7);
    assert!(d.wants_step());
    d.observe(1);
    assert!(!d.wants_step());
    assert!(d.stopped);
    assert_eq!(d.tokens, vec![0, 42, 7]);
    assert_eq!(d.steps, 3);
}

#[test]
fn flan_decoding_has_a_budget_of_128_steps() {
    let mut d = flan_decoding();
    let mut n = 0;
    while d.wants_step() {
        d.observe(5);
        n += 1;
    }
    assert_eq!(n, 128);
    assert_eq!(d.tokens.len(), 129);
    assert!(!d.stopped);
}

#[test]
fn qwen_decoding_has_a_budget_of_256_steps() {
    let mut d = qwen_decoding(151645);
    assert!(d.tokens.is_empty());
    let mut n = 0;
    while d.wants_step() {
        d.observe(3);
        n += 1;
    }
    assert_eq!(n, 256);
    assert_eq!(d.tokens.len(), 256);
}

#[test]
fn end_token_is_not_kept() {
    let mut d = GreedyDecoding::new(vec![9], 2, 10);
    d.observe(2);
    assert_eq!(d.tokens, vec![9]);
    assert!(!d.wants_step());
}

#[test]
fn zero_budget_runs_no_step() {
    let d = GreedyDecoding::new(vec![], 2, 0);
    assert!(!d.wants_step());
}
