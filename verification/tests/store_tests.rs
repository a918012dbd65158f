use ratelimit_service::bucket::OverLimit;
use ratelimit_service::plan::{Plan, PlanConfig, Unit};
use ratelimit_service::store::{BucketStore, RateLimitKey};

fn key(plan: Plan, identity: &str) -> RateLimitKey {
    RateLimitKey::new(plan, identity.to_string())
}

fn limits(rate: u32, capacity: u32) -> PlanConfig {
    PlanConfig::new(rate, Unit::Second, capacity).unwrap()
}

#[test]
fn a_new_store_is_empty() {
    let store = BucketStore::new();
    assert_eq!(store.len(), 0);
    assert!(!store.contains(&key(Plan::Free, "a")));
    assert!(store.get(&key(Plan::Free, "a")).is_none());
}

#[test]
fn keys_compare_by_plan_and_identity() {
    assert!(key(Plan::Free, "a").same(&key(Plan::Free, "a")));
    assert!(!key(Plan::Free, "a").same(&key(Plan::Paid, "a")));
    assert!(!key(Plan::Free, "a").same(&key(Plan::Free, "b")));
    assert!(!key(Plan::Free, "a").same(&key(Plan::Free, "A")));
}

#[test]
fn a_bucket_is_made_full_on_first_use() {
    let mut store = BucketStore::new();
    let k = key(Plan::Free, "a");
    let b = store.get_or_create(&k, &limits(10, 20), 42);
    assert_eq!(b.tokens(), 20);
    assert_eq!(b.last_update(), 42);
    assert_eq!(b.config(), limits(10, 20));
    assert_eq!(store.len(), 1);
    assert!(store.contains(&k));
}

#[test]
fn a_key_has_one_bucket_for_good() {
    let mut store = BucketStore::new();
    let k = key(Plan::Free, "a");
    assert_eq!(store.get_or_create(&k, &limits(1, 2), 0).check(0), Ok(()));
    // the same key again: the same bucket, whatever limits and time are given
    let b = store.get_or_create(&k, &limits(100, 200), 5);
    assert_eq!(b.tokens(), 1);
    assert_eq!(b.last_update(), 0);
    assert_eq!(b.config(), limits(1, 2));
    assert_eq!(b.check(0), Ok(()));
    assert_eq!(store.get_or_create(&k, &limits(1, 2), 0).check(0), Err(OverLimit));
    assert_eq!(store.len(), 1);
}

#[test]
fn get_shows_the_bucket_without_changing_it() {
    let mut store = BucketStore::new();
    let k = key(Plan::Paid, "a");
    assert_eq!(store.check(&k, &limits(1, 3), 9), Ok(()));
    assert_eq!(store.get(&k).unwrap().tokens(), 2);
    assert_eq!(store.get(&k).unwrap().tokens(), 2);
    assert_eq!(store.get(&k).unwrap().last_update(), 9);
    assert!(store.get(&key(Plan::Free, "a")).is_none());
}

#[test]
fn check_makes_the_bucket_and_takes_a_token() {
    let mut store = BucketStore::new();
    let k = key(Plan::Free, "a");
    assert_eq!(store.check(&k, &limits(1, 2), 0), Ok(()));
    assert_eq!(store.check(&k, &limits(1, 2), 0), Ok(()));
    assert_eq!(store.check(&k, &limits(1, 2), 0), Err(OverLimit));
    assert_eq!(store.check(&k, &limits(1, 2), 1_000_000_000), Ok(()));
    assert_eq!(store.len(), 1);
}

#[test]
fn one_key_does_not_touch_another() {
    let mut store = BucketStore::new();
    let a = key(Plan::Free, "a");
    let b = key(Plan::Free, "b");
    assert_eq!(store.check(&b, &limits(1, 2), 0), Ok(()));
    for _ in 0..2 {
        assert_eq!(store.check(&a, &limits(1, 2), 0), Ok(()));
    }
    assert_eq!(store.check(&a, &limits(1, 2), 0), Err(OverLimit));
    assert_eq!(store.get(&b).unwrap().tokens(), 1);
    assert_eq!(store.get(&b).unwrap().last_update(), 0);
    assert_eq!(store.check(&b, &limits(1, 2), 0), Ok(()));
    assert_eq!(store.check(&b, &limits(1, 2), 0), Err(OverLimit));
    assert_eq!(store.len(), 2);
}

#[test]
fn the_plan_is_part_of_the_key() {
    let mut store = BucketStore::new();
    let free = key(Plan::Free, "a");
    let paid = key(Plan::Paid, "a");
    assert_eq!(store.check(&free, &limits(1, 1), 0), Ok(()));
    assert_eq!(store.check(&free, &limits(1, 1), 0), Err(OverLimit));
    assert_eq!(store.check(&paid, &limits(1, 1), 0), Ok(()));
    assert_eq!(store.len(), 2);
}

#[test]
fn many_keys() {
    let mut store = BucketStore::new();
    for i in 0..100 {
        let k = key(Plan::Free, &format!("caller-{}", i));
        assert_eq!(store.check(&k, &limits(1, 1), 0), Ok(()));
    }
    assert_eq!(store.len(), 100);
    for i in 0..100 {
        let k = key(Plan::Free, &format!("caller-{}", i));
        assert_eq!(store.check(&k, &limits(1, 1), 0), Err(OverLimit));
    }
    assert_eq!(store.len(), 100);
}
