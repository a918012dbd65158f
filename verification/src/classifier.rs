//! Classification: which plan a request is served under, and which bucket.
//!
//! A request is a list of descriptors, each a list of entries. The entries
//! are read in the order of the request; where a key occurs more than once,
//! the last occurrence counts. A key that does not occur falls back to a
//! default, so every request is classified.

use crate::plan::Plan;
use vstd::prelude::*;

verus! {

/// One key and value of a descriptor.
#[derive(Clone, Debug, PartialEq, Eq)]
pub struct Entry {
    pub key: String,
    pub value: String,
}

/// An entry as mathematical values.
pub struct EntryView {
    pub key: Seq<char>,
    pub value: Seq<char>,
}

impl View for Entry {
    type V = EntryView;

    open spec fn view(&self) -> EntryView {
        EntryView { key: self.key@, value: self.value@ }
    }
}

/// What one rate-limit check says of the caller: entries in their order.
#[derive(Clone, Debug, PartialEq, Eq)]
pub struct Descriptor {
    pub entries: Vec<Entry>,
}

impl View for Descriptor {
    type V = Seq<EntryView>;

    open spec fn view(&self) -> Seq<EntryView> {
        self.entries@.map_values(|e: Entry| e@)
    }
}

/// The descriptors of a request as mathematical values.
pub open spec fn request_view(descriptors: Seq<Descriptor>) -> Seq<Seq<EntryView>> {
    descriptors.map_values(|d: Descriptor| d@)
}

/// The names that the classifier looks for.
#[derive(Clone, Debug, PartialEq, Eq)]
pub struct ClassifierConfig {
    /// The key of the entry that names the caller; its value keys the bucket.
    pub identity_key: String,
    /// The key of the entry that carries the caller's API key.
    pub api_key_key: String,
    /// The key of the entry that names the caller's plan.
    pub plan_key: String,
    /// The value of the plan entry that selects the paid plan.
    pub paid_value: String,
    /// What stands for an identity or an API key that the request lacks.
    pub default_identity: String,
}

/// The classifier's names as mathematical values.
pub struct ClassifierKeys {
    pub identity_key: Seq<char>,
    pub api_key_key: Seq<char>,
    pub plan_key: Seq<char>,
    pub paid_value: Seq<char>,
    pub default_identity: Seq<char>,
}

impl View for ClassifierConfig {
    type V = ClassifierKeys;

    open spec fn view(&self) -> ClassifierKeys {
        ClassifierKeys {
            identity_key: self.identity_key@,
            api_key_key: self.api_key_key@,
            plan_key: self.plan_key@,
            paid_value: self.paid_value@,
            default_identity: self.default_identity@,
        }
    }
}

/// The outcome of classification.
#[derive(Clone, Debug, PartialEq, Eq)]
pub struct Classification {
    pub plan: Plan,
    /// The string that, with the plan, keys the bucket.
    pub identity: String,
    pub api_key: String,
}

/// A classification as mathematical values.
pub struct ClassificationView {
    pub plan: Plan,
    pub identity: Seq<char>,
    pub api_key: Seq<char>,
}

impl View for Classification {
    type V = ClassificationView;

    open spec fn view(&self) -> ClassificationView {
        ClassificationView { plan: self.plan, identity: self.identity@, api_key: self.api_key@ }
    }
}

/// All entries of a request, in its order.
pub open spec fn request_entries(request: Seq<Seq<EntryView>>) -> Seq<EntryView>
    decreases request.len(),
{
    if request.len() == 0 {
        Seq::empty()
    } else {
        request_entries(request.drop_last()) + request.last()
    }
}

/// The value of the last entry with the given key, if there is one.
pub open spec fn last_value(entries: Seq<EntryView>, key: Seq<char>) -> Option<Seq<char>>
    decreases entries.len(),
{
    if entries.len() == 0 {
        None
    } else if entries.last().key == key {
        Some(entries.last().value)
    } else {
        last_value(entries.drop_last(), key)
    }
}

/// The value found for a key, or the default.
pub open spec fn value_or(found: Option<Seq<char>>, default: Seq<char>) -> Seq<char> {
    match found {
        Some(v) => v,
        None => default,
    }
}

/// The classification of a list of entries: the paid plan exactly when the
/// last plan entry holds the paid value, else the free plan; for the identity
/// and the API key the last value given, else the default.
pub open spec fn classify_entries(keys: ClassifierKeys, entries: Seq<EntryView>)
    -> ClassificationView {
    ClassificationView {
        plan: if last_value(entries, keys.plan_key) == Some(keys.paid_value) {
            Plan::Paid
        } else {
            Plan::Free
        },
        identity: value_or(last_value(entries, keys.identity_key), keys.default_identity),
        api_key: value_or(last_value(entries, keys.api_key_key), keys.default_identity),
    }
}

/// The classification of a request.
pub open spec fn classify_spec(keys: ClassifierKeys, request: Seq<Seq<EntryView>>)
    -> ClassificationView {
    classify_entries(keys, request_entries(request))
}

/// Classification is a function of what the request says and of nothing
/// else: two requests that say the same are classified alike.
pub proof fn lemma_classification_repeats(
    keys: ClassifierKeys,
    first: Seq<Descriptor>,
    second: Seq<Descriptor>,
)
    requires
        request_view(first) == request_view(second),
    ensures
        classify_spec(keys, request_view(first)) == classify_spec(keys, request_view(second)),
{
}

/// A request that says nothing of the plan or of the caller is served under
/// the free plan and keyed by the default identity.
pub proof fn lemma_defaults(keys: ClassifierKeys, request: Seq<Seq<EntryView>>)
    requires
        forall|i: int|
            0 <= i < request_entries(request).len() ==> (#[trigger] request_entries(
                request,
            )[i]).key != keys.plan_key && request_entries(request)[i].key != keys.identity_key,
    ensures
        classify_spec(keys, request).plan == Plan::Free,
        classify_spec(keys, request).identity == keys.default_identity,
{
    let entries = request_entries(request);
    lemma_last_value_is_last(entries, keys.plan_key);
    lemma_last_value_is_last(entries, keys.identity_key);
    if let Some(v) = last_value(entries, keys.plan_key) {
        let i = choose|i: int|
            0 <= i < entries.len() && entries[i].key == keys.plan_key && entries[i].value == v
                && forall|j: int| i < j < entries.len() ==> entries[j].key != keys.plan_key;
        assert(entries[i].key != keys.plan_key);
    }
    if let Some(v) = last_value(entries, keys.identity_key) {
        let i = choose|i: int|
            0 <= i < entries.len() && entries[i].key == keys.identity_key && entries[i].value == v
                && forall|j: int| i < j < entries.len() ==> entries[j].key != keys.identity_key;
        assert(entries[i].key != keys.identity_key);
    }
}

/// What `last_value` finds after one more entry.
pub proof fn lemma_last_value_push(entries: Seq<EntryView>, e: EntryView, key: Seq<char>)
    ensures
        last_value(entries.push(e), key) == if e.key == key {
            Some(e.value)
        } else {
            last_value(entries, key)
        },
{
    assert(entries.push(e).drop_last() =~= entries);
}

/// `last_value` finds `Some(v)` exactly when some entry with the key holds
/// `v` and no later entry has the key, and `None` exactly when no entry has
/// the key.
pub proof fn lemma_last_value_is_last(entries: Seq<EntryView>, key: Seq<char>)
    ensures
        match last_value(entries, key) {
            Some(v) => exists|i: int|
                0 <= i < entries.len() && entries[i].key == key && entries[i].value == v
                    && forall|j: int| i < j < entries.len() ==> entries[j].key != key,
            None => forall|i: int| 0 <= i < entries.len() ==> entries[i].key != key,
        },
    decreases entries.len(),
{
    if entries.len() > 0 {
        let n = entries.len() - 1;
        if entries.last().key == key {
            assert(entries[n].key == key && entries[n].value == entries.last().value);
        } else {
            let rest = entries.drop_last();
            lemma_last_value_is_last(rest, key);
            match last_value(rest, key) {
                Some(v) => {
                    let i = choose|i: int|
                        0 <= i < rest.len() && rest[i].key == key && rest[i].value == v
                            && forall|j: int| i < j < rest.len() ==> rest[j].key != key;
                    assert(entries[i].key == key && entries[i].value == v);
                    assert forall|j: int| i < j < entries.len() implies entries[j].key != key by {
                        if j < n {
                            assert(rest[j].key != key);
                        }
                    }
                },
                None => {
                    assert forall|i: int| 0 <= i < entries.len() implies entries[i].key != key by {
                        if i < n {
                            assert(rest[i].key != key);
                        }
                    }
                },
            }
        }
    }
}

impl Entry {
    /// The entry that gives `value` for `key`.
    pub fn new(key: String, value: String) -> (e: Entry)
        ensures
            e@ == (EntryView { key: key@, value: value@ }),
    {
        Entry { key, value }
    }
}

impl Descriptor {
    /// The descriptor of the given entries, in their order.
    pub fn new(entries: Vec<Entry>) -> (d: Descriptor)
        ensures
            d.entries == entries,
    {
        Descriptor { entries }
    }
}

impl ClassifierConfig {
    /// The names this service ships with: the caller is named by
    /// `remote_address`, the API key comes under `xapiheader`, the plan under
    /// `xuserheader`, `paid` selects the paid plan, and `default` stands for
    /// what is missing.
    pub fn standard() -> (c: ClassifierConfig)
        ensures
            c@.identity_key == "remote_address"@,
            c@.api_key_key == "xapiheader"@,
            c@.plan_key == "xuserheader"@,
            c@.paid_value == "paid"@,
            c@.default_identity == "default"@,
    {
        ClassifierConfig {
            identity_key: "remote_address".to_string(),
            api_key_key: "xapiheader".to_string(),
            plan_key: "xuserheader".to_string(),
            paid_value: "paid".to_string(),
            default_identity: "default".to_string(),
        }
    }
}

/// What a scan has found so far for one key.
spec fn found_is(found: Option<String>, expected: Option<Seq<char>>) -> bool {
    match found {
        Some(s) => expected == Some(s@),
        None => expected is None,
    }
}

/// Classifies a request. Every request has a classification: entries that
/// are missing or that the classifier does not know change nothing.
pub fn classify(config: &ClassifierConfig, descriptors: &Vec<Descriptor>) -> (c: Classification)
    ensures
        c@ == classify_spec(config@, request_view(descriptors@)),
{
    let ghost keys = config@;
    let ghost request = request_view(descriptors@);
    let mut identity: Option<String> = None;
    let mut api_key: Option<String> = None;
    let mut paid: bool = false;
    let mut i: usize = 0;
    while i < descriptors.len()
        invariant
            i <= descriptors.len(),
            keys == config@,
            request == request_view(descriptors@),
            found_is(
                identity,
                last_value(request_entries(request.take(i as int)), keys.identity_key),
            ),
            found_is(api_key, last_value(request_entries(request.take(i as int)), keys.api_key_key)),
            paid == (last_value(request_entries(request.take(i as int)), keys.plan_key) == Some(
                keys.paid_value,
            )),
        decreases descriptors.len() - i,
    {
        let descriptor = &descriptors[i];
        let ghost before = request_entries(request.take(i as int));
        let ghost here = descriptor@;
        let mut j: usize = 0;
        assert(before + here.take(0) =~= before);
        while j < descriptor.entries.len()
            invariant
                j <= descriptor.entries.len(),
                keys == config@,
                here == descriptor@,
                here.len() == descriptor.entries.len(),
                found_is(identity, last_value(before + here.take(j as int), keys.identity_key)),
                found_is(api_key, last_value(before + here.take(j as int), keys.api_key_key)),
                paid == (last_value(before + here.take(j as int), keys.plan_key) == Some(
                    keys.paid_value,
                )),
            decreases descriptor.entries.len() - j,
        {
            let entry = &descriptor.entries[j];
            proof {
                let seen = before + here.take(j as int);
                assert(here[j as int] == entry@);
                assert(seen.push(entry@) =~= before + here.take(j + 1));
                lemma_last_value_push(seen, entry@, keys.identity_key);
                lemma_last_value_push(seen, entry@, keys.api_key_key);
                lemma_last_value_push(seen, entry@, keys.plan_key);
            }
            if entry.key == config.identity_key {
                identity = Some(entry.value.clone());
            }
            if entry.key == config.api_key_key {
                api_key = Some(entry.value.clone());
            }
            if entry.key == config.plan_key {
                paid = entry.value == config.paid_value;
            }
            j = j + 1;
        }
        proof {
            assert(here.take(j as int) =~= here);
            let upto = request.take(i + 1);
            assert(upto.drop_last() =~= request.take(i as int));
            assert(upto.last() == here);
        }
        i = i + 1;
    }
    assert(request.take(i as int) =~= request);
    Classification {
        plan: if paid {
            Plan::Paid
        } else {
            Plan::Free
        },
        identity: match identity {
            Some(s) => s,
            None => config.default_identity.clone(),
        },
        api_key: match api_key {
            Some(s) => s,
            None => config.default_identity.clone(),
        },
    }
}

} // verus!
