use ratelimit_service::bucket::OverLimit;
use ratelimit_service::classifier::{classify, ClassifierConfig, Descriptor, Entry};
use ratelimit_service::decision::{Code, Decision, DescriptorStatus, RateLimit};
use ratelimit_service::plan::{Plan, PlanConfig, PlanTable, Unit};
use ratelimit_service::service::LimiterService;
use ratelimit_service::store::{BucketStore, RateLimitKey};

const MILLI: u64 = 1_000_000;

fn descriptor(entries: &[(&str, &str)]) -> Descriptor {
    Descriptor::new(entries.iter().map(|(k, v)| Entry::new(k.to_string(), v.to_string())).collect())
}

fn from_ip(ip: &str) -> Vec<Descriptor> {
    vec![descriptor(&[("remote_address", ip)])]
}

fn paid_from_ip(ip: &str) -> Vec<Descriptor> {
    vec![descriptor(&[("remote_address", ip), ("xuserheader", "paid")])]
}

fn service() -> LimiterService {
    LimiterService::new(ClassifierConfig::standard(), PlanTable::standard(), BucketStore::new())
}

fn status(code: Code, rate: u32) -> DescriptorStatus {
    DescriptorStatus {
        code,
        current_limit: Some(RateLimit { requests_per_unit: rate, unit: Unit::Second }),
        limit_remaining: 0,
    }
}

#[test]
fn a_new_service_has_no_buckets() {
    let s = service();
    assert_eq!(s.store().len(), 0);
    assert_eq!(s.classifier(), &ClassifierConfig::standard());
    assert_eq!(s.plans(), &PlanTable::standard());
}

#[test]
fn the_first_request_passes_and_reports_the_limit() {
    let mut s = service();
    let d = s.should_rate_limit(&from_ip("1.2.3.4"), 0);
    assert_eq!(
        d,
        Decision { overall_code: Code::WithinLimit, statuses: vec![status(Code::WithinLimit, 10)] }
    );
    assert_eq!(s.store().len(), 1);
    assert!(s.store().contains(&RateLimitKey::new(Plan::Free, "1.2.3.4".to_string())));
}

#[test]
fn free_plan_burst_then_refill() {
    let mut s = service();
    let request = from_ip("1.2.3.4");
    let mut now = 5_000 * MILLI;
    for i in 0..20 {
        let d = s.should_rate_limit(&request, now);
        assert_eq!(d.overall_code, Code::WithinLimit, "call {}", i);
        now += 40_000;
    }
    assert_eq!(s.should_rate_limit(&request, now).overall_code, Code::OverLimit);
    now += 200 * MILLI;
    assert_eq!(s.should_rate_limit(&request, now).overall_code, Code::WithinLimit);
    assert_eq!(s.should_rate_limit(&request, now).overall_code, Code::WithinLimit);
    assert_eq!(s.should_rate_limit(&request, now).overall_code, Code::OverLimit);
    assert_eq!(s.should_rate_limit(&request, now).overall_code, Code::OverLimit);
}

#[test]
fn paid_plan_burst_then_refill() {
    let mut s = service();
    let request = paid_from_ip("1.2.3.4");
    for i in 0..200 {
        let d = s.should_rate_limit(&request, 0);
        assert_eq!(d.overall_code, Code::WithinLimit, "call {}", i);
        assert_eq!(d.statuses, vec![status(Code::WithinLimit, 100)]);
    }
    assert_eq!(s.should_rate_limit(&request, 0).overall_code, Code::OverLimit);
    // a hundred a second: a token every 10 ms
    assert_eq!(s.should_rate_limit(&request, 10 * MILLI - 1).overall_code, Code::OverLimit);
    assert_eq!(s.should_rate_limit(&request, 10 * MILLI).overall_code, Code::WithinLimit);
}

#[test]
fn a_refusal_reports_the_rate_of_the_plan() {
    let mut s = service();
    let free = from_ip("a");
    let paid = paid_from_ip("a");
    for _ in 0..20 {
        s.should_rate_limit(&free, 0);
    }
    for _ in 0..200 {
        s.should_rate_limit(&paid, 0);
    }
    assert_eq!(
        s.should_rate_limit(&free, 0),
        Decision { overall_code: Code::OverLimit, statuses: vec![status(Code::OverLimit, 10)] }
    );
    assert_eq!(
        s.should_rate_limit(&paid, 0),
        Decision { overall_code: Code::OverLimit, statuses: vec![status(Code::OverLimit, 100)] }
    );
}

#[test]
fn a_refusal_reports_a_configured_rate() {
    let table = PlanTable::new(
        PlanConfig::new(7, Unit::Minute, 1).unwrap(),
        PlanConfig::new(9, Unit::Hour, 1).unwrap(),
    );
    let mut s = LimiterService::new(ClassifierConfig::standard(), table, BucketStore::new());
    assert_eq!(s.should_rate_limit(&from_ip("a"), 0).overall_code, Code::WithinLimit);
    let d = s.should_rate_limit(&from_ip("a"), 0);
    assert_eq!(d.overall_code, Code::OverLimit);
    assert_eq!(
        d.statuses[0].current_limit,
        Some(RateLimit { requests_per_unit: 7, unit: Unit::Minute })
    );
    assert_eq!(s.should_rate_limit(&paid_from_ip("a"), 0).overall_code, Code::WithinLimit);
    let d = s.should_rate_limit(&paid_from_ip("a"), 0);
    assert_eq!(d.overall_code, Code::OverLimit);
    assert_eq!(
        d.statuses[0].current_limit,
        Some(RateLimit { requests_per_unit: 9, unit: Unit::Hour })
    );
}

#[test]
fn callers_without_identity_share_one_bucket() {
    let mut s = service();
    let one = vec![descriptor(&[("path", "/a")])];
    let other = vec![descriptor(&[("generic_key", "x"), ("method", "GET")])];
    let c = classify(s.classifier(), &one);
    assert_eq!(c.plan, Plan::Free);
    assert_eq!(c.identity, "default");
    for i in 0..20 {
        let request = if i % 2 == 0 { &one } else { &other };
        assert_eq!(s.should_rate_limit(request, 0).overall_code, Code::WithinLimit);
    }
    assert_eq!(s.should_rate_limit(&one, 0).overall_code, Code::OverLimit);
    assert_eq!(s.should_rate_limit(&other, 0).overall_code, Code::OverLimit);
    assert_eq!(s.should_rate_limit(&vec![], 0).overall_code, Code::OverLimit);
    assert_eq!(s.store().len(), 1);
    assert!(s.store().contains(&RateLimitKey::new(Plan::Free, "default".to_string())));
}

#[test]
fn one_caller_does_not_use_up_another() {
    let mut s = service();
    let a = from_ip("10.0.0.1");
    let b = from_ip("10.0.0.2");
    assert_eq!(s.should_rate_limit(&b, 0).overall_code, Code::WithinLimit);
    for _ in 0..20 {
        assert_eq!(s.should_rate_limit(&a, 0).overall_code, Code::WithinLimit);
    }
    assert_eq!(s.should_rate_limit(&a, 0).overall_code, Code::OverLimit);
    let key_b = RateLimitKey::new(Plan::Free, "10.0.0.2".to_string());
    assert_eq!(s.store().get(&key_b).unwrap().tokens(), 19);
    for _ in 0..19 {
        assert_eq!(s.should_rate_limit(&b, 0).overall_code, Code::WithinLimit);
    }
    assert_eq!(s.should_rate_limit(&b, 0).overall_code, Code::OverLimit);
}

#[test]
fn the_order_of_two_callers_does_not_matter() {
    let mut first = service();
    let mut second = service();
    let a = from_ip("a");
    let b = paid_from_ip("b");
    let da1 = first.should_rate_limit(&a, 3);
    let db1 = first.should_rate_limit(&b, 8);
    let db2 = second.should_rate_limit(&b, 8);
    let da2 = second.should_rate_limit(&a, 3);
    assert_eq!(da1, da2);
    assert_eq!(db1, db2);
    for key in [
        RateLimitKey::new(Plan::Free, "a".to_string()),
        RateLimitKey::new(Plan::Paid, "b".to_string()),
    ] {
        assert_eq!(first.store().get(&key), second.store().get(&key));
    }
}

#[test]
fn a_key_sees_its_own_requests_only() {
    // three callers interleaved, and each of them alone: the same decisions
    let callers = [from_ip("a"), paid_from_ip("b"), from_ip("c")];
    let mut together = service();
    let mut alone = [service(), service(), service()];
    let mut now = 0;
    for round in 0..300u64 {
        for (i, request) in callers.iter().enumerate() {
            // the first caller asks every round, the others less often
            if round % (i as u64 + 1) == 0 {
                now += 3 * MILLI;
                let mixed = together.should_rate_limit(request, now);
                let single = alone[i].should_rate_limit(request, now);
                assert_eq!(mixed, single, "caller {} in round {}", i, round);
            }
        }
    }
    assert_eq!(together.store().len(), 3);
}

#[test]
fn the_same_caller_under_two_plans_has_two_buckets() {
    let mut s = service();
    for _ in 0..20 {
        assert_eq!(s.should_rate_limit(&from_ip("a"), 0).overall_code, Code::WithinLimit);
    }
    assert_eq!(s.should_rate_limit(&from_ip("a"), 0).overall_code, Code::OverLimit);
    assert_eq!(s.should_rate_limit(&paid_from_ip("a"), 0).overall_code, Code::WithinLimit);
    assert_eq!(s.store().len(), 2);
}

#[test]
fn every_descriptor_gets_a_status() {
    let mut s = service();
    let request = vec![
        descriptor(&[("remote_address", "1.1.1.1")]),
        descriptor(&[("xuserheader", "paid")]),
        descriptor(&[]),
    ];
    let d = s.should_rate_limit(&request, 0);
    assert_eq!(d.overall_code, Code::WithinLimit);
    assert_eq!(d.statuses, vec![status(Code::WithinLimit, 100); 3]);
    // one check was made, against one bucket
    assert_eq!(s.store().len(), 1);
    let key = RateLimitKey::new(Plan::Paid, "1.1.1.1".to_string());
    assert_eq!(s.store().get(&key).unwrap().tokens(), 199);
}

#[test]
fn a_request_without_descriptors_gets_one_status() {
    let mut s = service();
    let d = s.should_rate_limit(&vec![], 0);
    assert_eq!(
        d,
        Decision { overall_code: Code::WithinLimit, statuses: vec![status(Code::WithinLimit, 10)] }
    );
}

#[test]
fn a_refused_request_still_moves_the_bucket_on() {
    let table = PlanTable::new(
        PlanConfig::new(10, Unit::Second, 1).unwrap(),
        PlanConfig::new(10, Unit::Second, 1).unwrap(),
    );
    let mut s = LimiterService::new(ClassifierConfig::standard(), table, BucketStore::new());
    let request = from_ip("a");
    let key = RateLimitKey::new(Plan::Free, "a".to_string());
    assert_eq!(s.should_rate_limit(&request, 0).overall_code, Code::WithinLimit);
    assert_eq!(s.should_rate_limit(&request, 60 * MILLI).overall_code, Code::OverLimit);
    assert_eq!(s.store().get(&key).unwrap().last_update(), 60 * MILLI);
    assert_eq!(s.should_rate_limit(&request, 100 * MILLI).overall_code, Code::WithinLimit);
    assert_eq!(s.should_rate_limit(&request, 160 * MILLI).overall_code, Code::OverLimit);
}

#[test]
fn a_service_takes_over_the_store_it_is_given() {
    let mut store = BucketStore::new();
    let key = RateLimitKey::new(Plan::Free, "1.2.3.4".to_string());
    let config = PlanTable::standard().config(Plan::Free);
    for _ in 0..19 {
        assert!(store.check(&key, &config, 0).is_ok());
    }
    let mut s = LimiterService::new(ClassifierConfig::standard(), PlanTable::standard(), store);
    assert_eq!(s.store().len(), 1);
    assert_eq!(s.should_rate_limit(&from_ip("1.2.3.4"), 0).overall_code, Code::WithinLimit);
    assert_eq!(s.should_rate_limit(&from_ip("1.2.3.4"), 0).overall_code, Code::OverLimit);
}

#[test]
fn check_takes_a_classification() {
    let mut s = service();
    let request = paid_from_ip("z");
    let c = classify(s.classifier(), &request);
    let d = s.check(&c, request.len(), 0);
    assert_eq!(d.overall_code, Code::WithinLimit);
    assert_eq!(d.statuses, vec![status(Code::WithinLimit, 100)]);
    assert!(s.store().contains(&RateLimitKey::new(Plan::Paid, "z".to_string())));
}

#[test]
fn codes_of_outcomes() {
    assert_eq!(Code::from_outcome(&Ok(())), Code::WithinLimit);
    assert_eq!(Code::from_outcome(&Err(OverLimit)), Code::OverLimit);
}

#[test]
fn composed_decisions() {
    let config = PlanConfig::new(5, Unit::Day, 6).unwrap();
    let passed = Decision::compose(&Ok(()), &config, 2);
    let limit = Some(RateLimit { requests_per_unit: 5, unit: Unit::Day });
    let ok = DescriptorStatus { code: Code::WithinLimit, current_limit: limit, limit_remaining: 0 };
    let over = DescriptorStatus { code: Code::OverLimit, current_limit: limit, limit_remaining: 0 };
    assert_eq!(passed, Decision { overall_code: Code::WithinLimit, statuses: vec![ok, ok] });
    let refused = Decision::compose(&Err(OverLimit), &config, 0);
    assert_eq!(refused, Decision { overall_code: Code::OverLimit, statuses: vec![over] });
    let refused = Decision::compose(&Err(OverLimit), &config, 1);
    assert_eq!(refused, Decision { overall_code: Code::OverLimit, statuses: vec![over] });
}

#[test]
fn simultaneous_requests_pass_up_to_the_capacity() {
    let mut s = service();
    let request = from_ip("busy");
    let mut passed = 0;
    let mut refused = 0;
    for _ in 0..57 {
        match s.should_rate_limit(&request, 1_000).overall_code {
            Code::WithinLimit => passed += 1,
            Code::OverLimit => refused += 1,
        }
    }
    assert_eq!((passed, refused), (20, 37));
}
