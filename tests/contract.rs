use near_tree_map::approval::{expect_approval, expect_token_found, TokenNotApproved, TokenNotFound};
use near_tree_map::generic_incrementer::Incrementer as TaggedIncrementer;
use near_tree_map::incrementer::Incrementer;
use near_tree_map::vm_types::{PromiseError, PromiseIndex, PromiseResult};

#[test]
fn incrementer_starts_at_one_and_adds() {
    let mut c = Incrementer::new();
    assert_eq!(c.value(), 1);
    c.inc(5);
    assert_eq!(c.value(), 6);
    c.inc(0);
    assert_eq!(c.value(), 6);
}

#[test]
fn tagged_incrementer_adds() {
    let mut c: TaggedIncrementer<String> = TaggedIncrementer::new();
    assert_eq!(c.value(), 0);
    c.inc(u32::MAX - 1);
    c.inc(1);
    assert_eq!(c.value(), u32::MAX);
}

#[test]
fn token_found_or_not() {
    assert_eq!(expect_token_found(Some(3u8)), Ok(3));
    assert_eq!(expect_token_found::<u8>(None), Err(TokenNotFound {}));
}

#[test]
fn approval_set_or_not() {
    assert_eq!(expect_approval(Some("x")).ok(), Some("x"));
    let err = expect_approval::<u8>(None).unwrap_err();
    assert_eq!(err.message(), "next_approval_by_id must be set for approval ext");
    assert_eq!(TokenNotApproved::new("why").message(), "why");
}

#[test]
fn promise_index_round_trips() {
    let ix = PromiseIndex::new(42);
    assert_eq!(ix.raw(), 42);
    assert_eq!(ix, PromiseIndex::new(42));
    assert!(PromiseIndex::new(1) < PromiseIndex::new(2));
}

#[test]
fn promise_results_compare() {
    assert_eq!(PromiseResult::Successful(vec![1, 2]), PromiseResult::Successful(vec![1, 2]));
    assert_ne!(PromiseResult::Successful(vec![]), PromiseResult::Failed);
    assert_eq!(PromiseError::Failed, PromiseError::Failed);
}
