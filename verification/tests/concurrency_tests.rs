use ratelimit_service::classifier::{ClassifierConfig, Descriptor, Entry};
use ratelimit_service::decision::Code;
use ratelimit_service::metered::MeteredService;
use ratelimit_service::plan::PlanTable;
use ratelimit_service::service::LimiterService;
use ratelimit_service::store::BucketStore;
use std::sync::{Arc, Mutex};

fn sendable<T: Send>() {}

#[test]
fn the_services_can_be_handed_to_another_thread() {
    sendable::<LimiterService>();
    sendable::<MeteredService>();
    sendable::<Arc<Mutex<LimiterService>>>();
}

#[test]
fn callers_that_share_the_service_under_a_lock_pass_up_to_the_capacity() {
    let service = Arc::new(Mutex::new(LimiterService::new(
        ClassifierConfig::standard(),
        PlanTable::standard(),
        BucketStore::new(),
    )));
    let callers: Vec<Arc<Mutex<LimiterService>>> = (0..64).map(|_| Arc::clone(&service)).collect();
    let request = vec![Descriptor::new(vec![Entry::new(
        "remote_address".to_string(),
        "1.2.3.4".to_string(),
    )])];
    let mut passed = 0;
    let mut refused = 0;
    // in whatever order the callers take the lock: here, last first
    for caller in callers.iter().rev() {
        match caller.lock().unwrap().should_rate_limit(&request, 77).overall_code {
            Code::WithinLimit => passed += 1,
            Code::OverLimit => refused += 1,
        }
    }
    assert_eq!((passed, refused), (20, 44));
}
