//! The buckets of all keys.
//!
//! A bucket is made, full, the first time its key is asked for, and stays
//! for as long as the store does: nothing is ever removed. To its users the
//! store is a map from keys to buckets. Inside, keys and buckets stand in two
//! vectors, a key at the position of its bucket, and a key is found by
//! comparing: a lookup takes time in the number of keys.

use crate::bucket::{Bucket, BucketView, OverLimit};
use crate::plan::{Limits, Plan, PlanConfig};
use vstd::prelude::*;

verus! {

/// What a bucket is kept under: a plan and the caller's identity.
#[derive(Clone, Debug, PartialEq, Eq, Hash)]
pub struct RateLimitKey {
    pub plan: Plan,
    pub identity: String,
}

/// A key as mathematical values.
pub struct KeyView {
    pub plan: Plan,
    pub identity: Seq<char>,
}

impl View for RateLimitKey {
    type V = KeyView;

    open spec fn view(&self) -> KeyView {
        KeyView { plan: self.plan, identity: self.identity@ }
    }
}

impl RateLimitKey {
    /// The key of `identity` under `plan`.
    pub fn new(plan: Plan, identity: String) -> (k: RateLimitKey)
        ensures
            k@ == (KeyView { plan, identity: identity@ }),
    {
        RateLimitKey { plan, identity }
    }

    /// Whether two keys name the same bucket.
    pub fn same(&self, other: &RateLimitKey) -> (b: bool)
        ensures
            b == (self@ == other@),
    {
        self.plan == other.plan && self.identity == other.identity
    }

    fn copy(&self) -> (k: RateLimitKey)
        ensures
            k@ == self@,
    {
        RateLimitKey { plan: self.plan, identity: self.identity.clone() }
    }
}

/// The bucket that a check of `key` works on: the key's own, or a full one
/// made at time `now` where the key has none yet.
pub open spec fn bucket_for(
    buckets: Map<KeyView, BucketView>,
    key: KeyView,
    limits: Limits,
    now: nat,
) -> BucketView {
    if buckets.contains_key(key) {
        buckets[key]
    } else {
        BucketView::fresh(limits, now)
    }
}

/// Whether a check of `key` at time `now` finds a token.
pub open spec fn admits_at(
    buckets: Map<KeyView, BucketView>,
    key: KeyView,
    limits: Limits,
    now: nat,
) -> bool {
    bucket_for(buckets, key, limits, now).admits(now)
}

/// The buckets after a check of `key` at time `now`: the key's bucket has
/// been checked, and every other key has the bucket it had.
pub open spec fn after_check_at(
    buckets: Map<KeyView, BucketView>,
    key: KeyView,
    limits: Limits,
    now: nat,
) -> Map<KeyView, BucketView> {
    buckets.insert(key, bucket_for(buckets, key, limits, now).after_check(now))
}

/// Keys are isolated: a check of one key leaves the bucket of every other key
/// as it was, and so changes nothing of what a later check of another key
/// finds or leaves behind. Checks of two keys can be made in either order.
pub proof fn lemma_keys_are_isolated(
    buckets: Map<KeyView, BucketView>,
    a: KeyView,
    a_limits: Limits,
    a_now: nat,
    b: KeyView,
    b_limits: Limits,
    b_now: nat,
)
    requires
        a != b,
    ensures
        after_check_at(buckets, a, a_limits, a_now).contains_key(b) == buckets.contains_key(b),
        buckets.contains_key(b) ==> after_check_at(buckets, a, a_limits, a_now)[b] == buckets[b],
        bucket_for(after_check_at(buckets, a, a_limits, a_now), b, b_limits, b_now) == bucket_for(
            buckets,
            b,
            b_limits,
            b_now,
        ),
        admits_at(after_check_at(buckets, a, a_limits, a_now), b, b_limits, b_now) == admits_at(
            buckets,
            b,
            b_limits,
            b_now,
        ),
        after_check_at(after_check_at(buckets, a, a_limits, a_now), b, b_limits, b_now)
            == after_check_at(after_check_at(buckets, b, b_limits, b_now), a, a_limits, a_now),
{
    assert(after_check_at(after_check_at(buckets, a, a_limits, a_now), b, b_limits, b_now)
        =~= after_check_at(after_check_at(buckets, b, b_limits, b_now), a, a_limits, a_now));
}

/// No key occurs twice.
spec fn distinct(keys: Seq<RateLimitKey>) -> bool {
    forall|i: int, j: int| 0 <= i < j < keys.len() ==> keys[i]@ != keys[j]@
}

spec fn has_key(keys: Seq<RateLimitKey>, key: KeyView) -> bool {
    exists|i: int| 0 <= i < keys.len() && #[trigger] keys[i]@ == key
}

spec fn position(keys: Seq<RateLimitKey>, key: KeyView) -> int {
    choose|i: int| 0 <= i < keys.len() && #[trigger] keys[i]@ == key
}

/// The mapping that keys and buckets stand for, the bucket of a key being
/// the one at the key's position.
spec fn mapping(keys: Seq<RateLimitKey>, buckets: Seq<Bucket>) -> Map<KeyView, BucketView> {
    Map::new(|key: KeyView| has_key(keys, key), |key: KeyView| buckets[position(keys, key)]@)
}

proof fn lemma_position(keys: Seq<RateLimitKey>, i: int)
    requires
        distinct(keys),
        0 <= i < keys.len(),
    ensures
        has_key(keys, keys[i]@),
        position(keys, keys[i]@) == i,
{
    let key = keys[i]@;
    assert(keys[i]@ == key);
    let p = position(keys, key);
    assert(0 <= p < keys.len() && keys[p]@ == key);
    if p < i {
        assert(keys[p]@ != keys[i]@);
    } else if i < p {
        assert(keys[i]@ != keys[p]@);
    }
}

/// Another bucket at one position changes the mapping at that position's
/// key and nowhere else.
proof fn lemma_mapping_update(keys: Seq<RateLimitKey>, buckets: Seq<Bucket>, i: int, bucket: Bucket)
    requires
        distinct(keys),
        keys.len() == buckets.len(),
        0 <= i < keys.len(),
    ensures
        mapping(keys, buckets.update(i, bucket)) == mapping(keys, buckets).insert(
            keys[i]@,
            bucket@,
        ),
{
    let after = mapping(keys, buckets.update(i, bucket));
    let expected = mapping(keys, buckets).insert(keys[i]@, bucket@);
    lemma_position(keys, i);
    assert forall|key: KeyView| has_key(keys, key) implies #[trigger] after[key]
        == expected[key] by {
        lemma_position(keys, position(keys, key));
    }
    assert(after =~= expected);
}

/// A new key with its bucket adds the key to the mapping and changes nothing
/// else.
proof fn lemma_mapping_push(
    keys: Seq<RateLimitKey>,
    buckets: Seq<Bucket>,
    key: RateLimitKey,
    bucket: Bucket,
)
    requires
        distinct(keys),
        keys.len() == buckets.len(),
        !has_key(keys, key@),
    ensures
        distinct(keys.push(key)),
        mapping(keys.push(key), buckets.push(bucket)) == mapping(keys, buckets).insert(
            key@,
            bucket@,
        ),
{
    let more = keys.push(key);
    let n = keys.len() as int;
    assert(distinct(more)) by {
        assert forall|a: int, b: int| 0 <= a < b < more.len() implies more[a]@ != more[b]@ by {
            if b == n {
                assert(keys[a]@ == more[a]@);
            }
        }
    }
    let after = mapping(more, buckets.push(bucket));
    let expected = mapping(keys, buckets).insert(key@, bucket@);
    assert forall|k: KeyView| has_key(more, k) == (has_key(keys, k) || k == key@) by {
        if has_key(more, k) {
            let p = position(more, k);
            if p < n {
                assert(keys[p]@ == k);
            }
        }
        if has_key(keys, k) {
            let p = position(keys, k);
            assert(more[p]@ == k);
        }
        if k == key@ {
            assert(more[n]@ == k);
        }
    }
    assert forall|k: KeyView| has_key(more, k) implies #[trigger] after[k] == expected[k] by {
        let p = position(more, k);
        lemma_position(more, p);
        if p < n {
            assert(keys[p]@ == k);
            lemma_position(keys, p);
        }
    }
    assert(after =~= expected);
}

/// A mapping has as many keys as there are positions.
proof fn lemma_domain_size(keys: Seq<RateLimitKey>, buckets: Seq<Bucket>)
    requires
        distinct(keys),
        keys.len() == buckets.len(),
    ensures
        mapping(keys, buckets).dom().finite(),
        mapping(keys, buckets).dom().len() == keys.len(),
    decreases keys.len(),
{
    if keys.len() == 0 {
        assert(mapping(keys, buckets).dom() =~= Set::<KeyView>::empty());
    } else {
        let rest = keys.drop_last();
        let key = keys.last();
        assert(distinct(rest)) by {
            assert forall|a: int, b: int| 0 <= a < b < rest.len() implies rest[a]@ != rest[b]@ by {
                assert(rest[a] == keys[a] && rest[b] == keys[b]);
            }
        }
        assert(!has_key(rest, key@)) by {
            if has_key(rest, key@) {
                let p = position(rest, key@);
                assert(keys[p]@ == keys[keys.len() - 1]@);
            }
        }
        lemma_domain_size(rest, buckets.drop_last());
        lemma_mapping_push(rest, buckets.drop_last(), key, buckets.last());
        assert(rest.push(key) =~= keys);
        assert(buckets.drop_last().push(buckets.last()) =~= buckets);
        assert(mapping(keys, buckets).dom() =~= mapping(rest, buckets.drop_last()).dom().insert(
            key@,
        ));
    }
}

/// The buckets of all keys that were ever asked for, one for each.
#[derive(Debug)]
pub struct BucketStore {
    keys: Vec<RateLimitKey>,
    buckets: Vec<Bucket>,
}

impl View for BucketStore {
    type V = Map<KeyView, BucketView>;

    closed spec fn view(&self) -> Map<KeyView, BucketView> {
        mapping(self.keys@, self.buckets@)
    }
}

impl BucketStore {
    #[verifier::type_invariant]
    spec fn one_bucket_per_key(self) -> bool {
        &&& self.keys.len() == self.buckets.len()
        &&& distinct(self.keys@)
    }

    /// A store without buckets.
    pub fn new() -> (store: BucketStore)
        ensures
            store@ == Map::<KeyView, BucketView>::empty(),
    {
        let store = BucketStore { keys: Vec::new(), buckets: Vec::new() };
        assert(store@ =~= Map::<KeyView, BucketView>::empty());
        store
    }

    /// Where `key` stands, if it has a bucket.
    fn find(&self, key: &RateLimitKey) -> (at: Option<usize>)
        ensures
            match at {
                Some(i) => i < self.keys.len() && self.keys[i as int]@ == key@,
                None => !has_key(self.keys@, key@),
            },
    {
        let mut i: usize = 0;
        while i < self.keys.len()
            invariant
                i <= self.keys.len(),
                forall|j: int| 0 <= j < i ==> self.keys[j]@ != key@,
            decreases self.keys.len() - i,
        {
            if self.keys[i].same(key) {
                return Some(i);
            }
            i = i + 1;
        }
        None
    }

    /// Whether `key` has a bucket.
    pub fn contains(&self, key: &RateLimitKey) -> (b: bool)
        ensures
            b == self@.contains_key(key@),
    {
        match self.find(key) {
            Some(i) => {
                assert(self.keys[i as int]@ == key@);
                true
            },
            None => false,
        }
    }

    /// The bucket of `key`, if it has one.
    pub fn get(&self, key: &RateLimitKey) -> (found: Option<&Bucket>)
        ensures
            found is Some <==> self@.contains_key(key@),
            found matches Some(bucket) ==> bucket@ == self@[key@] && bucket@.wf(),
    {
        proof {
            use_type_invariant(self);
        }
        match self.find(key) {
            Some(i) => {
                proof {
                    lemma_position(self.keys@, i as int);
                }
                let bucket = &self.buckets[i];
                let _ = bucket.config();
                Some(bucket)
            },
            None => None,
        }
    }

    /// Adds a key that has no bucket yet, with a bucket, and says where.
    fn add(&mut self, key: RateLimitKey, bucket: Bucket) -> (at: usize)
        requires
            !has_key(old(self).keys@, key@),
        ensures
            final(self).keys@ == old(self).keys@.push(key),
            final(self).buckets@ == old(self).buckets@.push(bucket),
            at == old(self).keys.len(),
            final(self)@ == old(self)@.insert(key@, bucket@),
    {
        let mut taken = BucketStore { keys: Vec::new(), buckets: Vec::new() };
        core::mem::swap(self, &mut taken);
        proof {
            use_type_invariant(&taken);
            lemma_mapping_push(taken.keys@, taken.buckets@, key, bucket);
        }
        let BucketStore { keys: mut keys, buckets: mut buckets } = taken;
        let at = keys.len();
        keys.push(key);
        buckets.push(bucket);
        *self = BucketStore { keys, buckets };
        at
    }

    /// The bucket of `key`. If the key has none yet, a full bucket with the
    /// limits of `config` is made for it at time `now`; if it has one, that
    /// bucket is handed out as it is, and `config` and `now` are not used.
    /// No other key's bucket changes, whatever is done with the one handed
    /// out.
    pub fn get_or_create(&mut self, key: &RateLimitKey, config: &PlanConfig, now: u64) -> (bucket:
        &mut Bucket)
        ensures
            bucket@ == if old(self)@.contains_key(key@) {
                old(self)@[key@]
            } else {
                BucketView::fresh(config@, now as nat)
            },
            bucket@.wf(),
            final(self)@ == old(self)@.insert(key@, final(bucket)@),
    {
        let at = match self.find(key) {
            Some(i) => {
                assert(self.keys[i as int]@ == key@);
                i
            },
            None => self.add(key.copy(), Bucket::full(*config, now)),
        };
        proof {
            use_type_invariant(&*self);
            lemma_position(self.keys@, at as int);
            assert forall|bucket: Bucket| #[trigger]
                mapping(self.keys@, self.buckets@.update(at as int, bucket)) == mapping(
                    self.keys@,
                    self.buckets@,
                ).insert(key@, bucket@) by {
                lemma_mapping_update(self.keys@, self.buckets@, at as int, bucket);
            }
        }
        let bucket = &mut self.buckets[at];
        let _ = bucket.config();
        bucket
    }

    /// Checks `key` at time `now`: takes a token from the key's bucket if it
    /// holds one, after making the bucket if the key had none. The bucket
    /// keeps the refilled level and the time also when the check is refused.
    pub fn check(&mut self, key: &RateLimitKey, config: &PlanConfig, now: u64) -> (r: Result<
        (),
        OverLimit,
    >)
        ensures
            r is Ok <==> admits_at(old(self)@, key@, config@, now as nat),
            final(self)@ == after_check_at(old(self)@, key@, config@, now as nat),
    {
        let bucket = self.get_or_create(key, config, now);
        bucket.check(now)
    }

    /// How many keys have a bucket.
    pub fn len(&self) -> (n: usize)
        ensures
            n == self@.dom().len(),
            self@.dom().finite(),
    {
        proof {
            use_type_invariant(self);
            lemma_domain_size(self.keys@, self.buckets@);
        }
        self.keys.len()
    }
}

} // verus!
