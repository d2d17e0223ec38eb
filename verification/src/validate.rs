//! Drift validation: comparing a translation's recorded source fingerprint
//! against the source's current fingerprint.
//!
//! The decision per record is exactly this table, and nothing else: the
//! source index lacks the key -> invalid, "key no longer exists in source";
//! the record carries no fingerprint -> invalid, "translation missing
//! source tracking"; the fingerprints differ -> invalid, "source value
//! changed"; otherwise valid.

use vstd::prelude::*;
use vstd::string::StringExecFns;
use crate::text::str_eq;

verus! {

/// A batch of translation records to validate against the current source
/// fingerprints.
pub struct ValidationRequest {
    pub translations: Vec<TranslationToValidate>,
    pub source_hashes: SourceIndex,
}

/// The outcomes of a validation batch, in input order.
pub struct ValidationResponse {
    pub results: Vec<ValidationResult>,
}

/// A translated string's last-known binding to a source fingerprint,
/// as handed over by the translation-authoring system.
pub struct TranslationToValidate {
    pub id: String,
    pub key: String,
    pub source_hash: Option<String>,
}

/// One validation outcome, order-preserving with the input records.
pub struct ValidationResult {
    pub id: String,
    pub is_valid: bool,
    pub reason: Option<String>,
}

/// The current fingerprint of each source key, supplied per validation
/// call. A mapping: every key occurs at most once.
pub struct SourceIndex {
    entries: Vec<(String, String)>,
}

impl View for SourceIndex {
    type V = Map<Seq<char>, Seq<char>>;

    closed spec fn view(&self) -> Map<Seq<char>, Seq<char>> {
        Map::new(
            |k: Seq<char>|
                exists|i: int|
                    0 <= i < self.entries@.len() && (#[trigger] self.entries@[i]).0@ == k,
            |k: Seq<char>|
                {
                    let i = choose|i: int|
                        0 <= i < self.entries@.len() && (#[trigger] self.entries@[i]).0@ == k;
                    self.entries@[i].1@
                },
        )
    }
}

impl SourceIndex {
    /// No key occurs twice.
    pub closed spec fn wf(&self) -> bool {
        forall|i: int, j: int|
            0 <= i < j < self.entries@.len() ==> (#[trigger] self.entries@[i]).0@ != (
            #[trigger] self.entries@[j]).0@
    }

    pub fn new() -> (s: SourceIndex)
        ensures
            s.wf(),
            s@ == Map::<Seq<char>, Seq<char>>::empty(),
    {
        let s = SourceIndex { entries: Vec::new() };
        proof {
            assert(s@ =~= Map::<Seq<char>, Seq<char>>::empty());
        }
        s
    }

    /// The position of a key among the entries, if it is there.
    fn position(&self, key: &str) -> (r: Option<usize>)
        ensures
            r is Some ==> r.unwrap() < self.entries@.len() && self.entries@[
                r.unwrap() as int
            ].0@ == key@,
            r is None ==> forall|i: int|
                0 <= i < self.entries@.len() ==> (#[trigger] self.entries@[i]).0@ != key@,
    {
        let n = self.entries.len();
        let mut idx: usize = 0;
        while idx < n
            invariant
                n == self.entries@.len(),
                idx <= n,
                forall|i: int| 0 <= i < idx ==> (#[trigger] self.entries@[i]).0@ != key@,
            decreases n - idx,
        {
            if str_eq(self.entries[idx].0.as_str(), key) {
                return Some(idx);
            }
            idx += 1;
        }
        None
    }

    /// Bind a key to a fingerprint, replacing any earlier binding.
    pub fn insert(&mut self, key: String, value: String)
        requires
            old(self).wf(),
        ensures
            final(self).wf(),
            final(self)@ == old(self)@.insert(key@, value@),
    {
        let ghost old_entries = self.entries@;
        let ghost k0 = key@;
        match self.position(key.as_str()) {
            Some(idx) => {
                self.entries.set(idx, (key, value));
                proof {
                    assert(self.entries@[idx as int].0@ == k0);
                    assert forall|i: int, j: int|
                        0 <= i < j < self.entries@.len() implies (#[trigger] self.entries@[i]).0@
                        != (#[trigger] self.entries@[j]).0@ by {
                        assert(old_entries[i].0@ != old_entries[j].0@);
                        assert(self.entries@[i].0@ == old_entries[i].0@);
                        assert(self.entries@[j].0@ == old_entries[j].0@);
                    }
                    assert forall|k: Seq<char>| #[trigger] self@.dom().contains(k) implies old(
                        self,
                    )@.insert(k0, value@).dom().contains(k) by {
                        let i = choose|i: int|
                            0 <= i < self.entries@.len() && (#[trigger] self.entries@[i]).0@ == k;
                        if k != k0 {
                            assert(old_entries[i].0@ == k);
                        }
                    }
                    assert forall|k: Seq<char>| #[trigger]
                        old(self)@.insert(k0, value@).dom().contains(k) implies self@.dom().contains(
                        k,
                    ) by {
                        if k == k0 {
                            assert(self.entries@[idx as int].0@ == k);
                        } else {
                            let i = choose|i: int|
                                0 <= i < old_entries.len() && (#[trigger] old_entries[i]).0@ == k;
                            assert(self.entries@[i].0@ == k);
                        }
                    }
                    assert forall|k: Seq<char>| #[trigger] self@.dom().contains(k) implies self@[k]
                        == old(self)@.insert(k0, value@)[k] by {
                        let i = choose|i: int|
                            0 <= i < self.entries@.len() && (#[trigger] self.entries@[i]).0@ == k;
                        if k == k0 {
                            if i != idx as int {
                                assert(old_entries[i].0@ == k0);
                                assert(old_entries[idx as int].0@ == k0);
                                assert(false);
                            }
                        } else {
                            assert(old_entries[i].0@ == k);
                            let j = choose|j: int|
                                0 <= j < old_entries.len() && (#[trigger] old_entries[j]).0@ == k;
                            assert(j == i);
                        }
                    }
                    assert(self@ =~= old(self)@.insert(k0, value@));
                }
            },
            None => {
                self.entries.push((key, value));
                proof {
                    let m = old_entries.len() as int;
                    assert(self.entries@.len() == m + 1);
                    assert(self.entries@[m].0@ == k0);
                    assert forall|i: int, j: int|
                        0 <= i < j < self.entries@.len() implies (#[trigger] self.entries@[i]).0@
                        != (#[trigger] self.entries@[j]).0@ by {
                        if j < m {
                            assert(old_entries[i].0@ != old_entries[j].0@);
                        } else {
                            assert(self.entries@[i].0@ == old_entries[i].0@);
                            assert(old_entries[i].0@ != k0);
                        }
                    }
                    assert forall|k: Seq<char>| #[trigger] self@.dom().contains(k) implies old(
                        self,
                    )@.insert(k0, value@).dom().contains(k) by {
                        let i = choose|i: int|
                            0 <= i < self.entries@.len() && (#[trigger] self.entries@[i]).0@ == k;
                        if k != k0 {
                            assert(i != m);
                            assert(old_entries[i].0@ == k);
                        }
                    }
                    assert forall|k: Seq<char>| #[trigger]
                        old(self)@.insert(k0, value@).dom().contains(k) implies self@.dom().contains(
                        k,
                    ) by {
                        if k == k0 {
                            assert(self.entries@[m].0@ == k);
                        } else {
                            let i = choose|i: int|
                                0 <= i < old_entries.len() && (#[trigger] old_entries[i]).0@ == k;
                            assert(self.entries@[i].0@ == k);
                        }
                    }
                    assert forall|k: Seq<char>| #[trigger] self@.dom().contains(k) implies self@[k]
                        == old(self)@.insert(k0, value@)[k] by {
                        let i = choose|i: int|
                            0 <= i < self.entries@.len() && (#[trigger] self.entries@[i]).0@ == k;
                        if k == k0 {
                            if i != m {
                                assert(old_entries[i].0@ == k0);
                                assert(false);
                            }
                        } else {
                            assert(i != m);
                            assert(old_entries[i].0@ == k);
                            let j = choose|j: int|
                                0 <= j < old_entries.len() && (#[trigger] old_entries[j]).0@ == k;
                            assert(j == i);
                        }
                    }
                    assert(self@ =~= old(self)@.insert(k0, value@));
                }
            },
        }
    }

    /// Look a key up; `Some` exactly when the index holds the key.
    pub fn get(&self, key: &str) -> (r: Option<&String>)
        requires
            self.wf(),
        ensures
            r is Some <==> self@.dom().contains(key@),
            r is Some ==> r.unwrap()@ == self@[key@],
    {
        match self.position(key) {
            Some(idx) => {
                proof {
                    assert(self.entries@[idx as int].0@ == key@);
                    let j = choose|j: int|
                        0 <= j < self.entries@.len() && (#[trigger] self.entries@[j]).0@ == key@;
                    if j != idx as int {
                        assert(false);
                    }
                }
                Some(&self.entries[idx].1)
            },
            None => {
                proof {
                    if self@.dom().contains(key@) {
                        let i = choose|i: int|
                            0 <= i < self.entries@.len() && (#[trigger] self.entries@[i]).0@
                                == key@;
                        assert(false);
                    }
                }
                None
            },
        }
    }

    /// The number of entries the index holds.
    pub closed spec fn spec_len(&self) -> nat {
        self.entries@.len()
    }

    /// How many keys the index holds.
    pub fn len(&self) -> (n: usize)
        ensures
            n == self.spec_len(),
    {
        self.entries.len()
    }
}

/// A record is valid exactly when the source still has its key, the record
/// carries a fingerprint, and the two fingerprints agree.
pub open spec fn outcome_valid(t: TranslationToValidate, m: Map<Seq<char>, Seq<char>>) -> bool {
    &&& m.dom().contains(t.key@)
    &&& t.source_hash is Some
    &&& t.source_hash.unwrap()@ == m[t.key@]
}

/// The reason tag attached to an invalid record; `None` for a valid one.
pub open spec fn reason_of(t: TranslationToValidate, m: Map<Seq<char>, Seq<char>>) -> Option<
    Seq<char>,
> {
    if !m.dom().contains(t.key@) {
        Some("key no longer exists in source"@)
    } else if t.source_hash is None {
        Some("translation missing source tracking"@)
    } else if t.source_hash.unwrap()@ != m[t.key@] {
        Some("source value changed"@)
    } else {
        None
    }
}

/// One outcome agrees with the decision table for one record.
pub open spec fn result_matches(
    r: ValidationResult,
    t: TranslationToValidate,
    m: Map<Seq<char>, Seq<char>>,
) -> bool {
    &&& r.id@ == t.id@
    &&& r.is_valid == outcome_valid(t, m)
    &&& (r.reason is Some <==> reason_of(t, m) is Some)
    &&& (r.reason is Some ==> r.reason.unwrap()@ == reason_of(t, m).unwrap())
}

/// Validate a batch of translation records against the current source
/// fingerprints: one outcome per record, in input order, each decided by
/// the table above. Pure: no other signal participates.
pub fn batch_validate_translations(
    translations: &[TranslationToValidate],
    source_hashes: &SourceIndex,
) -> (r: Vec<ValidationResult>)
    requires
        source_hashes.wf(),
    ensures
        r@.len() == translations@.len(),
        forall|i: int|
            0 <= i < translations@.len() ==> result_matches(
                #[trigger] r@[i],
                translations@[i],
                source_hashes@,
            ),
{
    let mut r: Vec<ValidationResult> = Vec::new();
    let n = translations.len();
    for idx in 0..n
        invariant
            source_hashes.wf(),
            n == translations@.len(),
            r@.len() == idx,
            forall|i: int|
                0 <= i < idx ==> result_matches(#[trigger] r@[i], translations@[i], source_hashes@),
    {
        let t = &translations[idx];
        let outcome = match source_hashes.get(t.key.as_str()) {
            None => ValidationResult {
                id: t.id.clone(),
                is_valid: false,
                reason: Some(String::from_str("key no longer exists in source")),
            },
            Some(current) => match &t.source_hash {
                None => ValidationResult {
                    id: t.id.clone(),
                    is_valid: false,
                    reason: Some(String::from_str("translation missing source tracking")),
                },
                Some(s) => {
                    if !str_eq(s.as_str(), current.as_str()) {
                        ValidationResult {
                            id: t.id.clone(),
                            is_valid: false,
                            reason: Some(String::from_str("source value changed")),
                        }
                    } else {
                        ValidationResult { id: t.id.clone(), is_valid: true, reason: None }
                    }
                },
            },
        };
        r.push(outcome);
    }
    r
}

} // verus!
