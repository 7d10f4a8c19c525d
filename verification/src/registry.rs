//! The registry of template repositories.
//!
//! Besides the repositories that were registered, the registry always holds
//! one named `default`, which is local and cannot be registered again.

use vstd::prelude::*;
use vstd::string::*;
use crate::error::CoreError;
use crate::text::{same_text, texts_of};

verus! {

/// Where a repository is fetched from, and the credential to present there.
/// The credential is passed through as it is.
pub struct Remote {
    pub url: String,
    pub auth: Option<String>,
}

/// One repository of templates. Without a remote it lives on disk only.
pub struct RepositoryRecord {
    pub name: String,
    pub description: String,
    pub remote: Option<Remote>,
}

impl RepositoryRecord {
    /// A record is well formed when its name is not empty.
    pub open spec fn wf(&self) -> bool {
        self.name@.len() > 0
    }

    /// Whether the record is well formed.
    pub fn is_valid(&self) -> (r: bool)
        ensures
            r == self.wf(),
    {
        !self.name.as_str().is_empty()
    }
}

/// The names of `records`, in order.
pub open spec fn names_of(records: Seq<RepositoryRecord>) -> Seq<Seq<char>> {
    records.map_values(|record: RepositoryRecord| record.name@)
}

/// Whether `records` can stand in a registry: the names are not empty,
/// differ from each other, and none is `default`.
pub open spec fn registrable(records: Seq<RepositoryRecord>) -> bool {
    &&& forall|i: int| 0 <= i < records.len() ==> (#[trigger] records[i]).wf()
    &&& !names_of(records).contains("default"@)
    &&& names_of(records).no_duplicates()
}

/// The index of the record named `name`, if there is one.
fn position(records: &Vec<RepositoryRecord>, upto: usize, name: &String) -> (r: Option<usize>)
    requires
        upto <= records.len(),
    ensures
        match r {
            Some(i) => i < upto && records@[i as int].name@ == name@,
            None => !names_of(records@.take(upto as int)).contains(name@),
        },
{
    let mut i: usize = 0;
    while i < upto
        invariant
            i <= upto <= records.len(),
            forall|k: int| 0 <= k < i ==> records@[k].name@ != name@,
        decreases upto - i,
    {
        if records[i].name == *name {
            return Some(i);
        }
        i += 1;
    }
    proof {
        let names = names_of(records@.take(upto as int));
        assert forall|k: int| 0 <= k < names.len() implies names[k] != name@ by {
            assert(names[k] == records@[k].name@);
        }
    }
    None
}

/// The registry.
pub struct Registry {
    fallback: RepositoryRecord,
    records: Vec<RepositoryRecord>,
    saved: usize,
}

impl Registry {
    /// The repositories that were registered, oldest first.
    pub closed spec fn records(&self) -> Seq<RepositoryRecord> {
        self.records@
    }

    /// How many of the registered repositories the store is known to hold:
    /// the oldest ones.
    pub closed spec fn persisted(&self) -> int {
        self.saved as int
    }

    /// The repository named `default`.
    pub closed spec fn fallback(&self) -> RepositoryRecord {
        self.fallback
    }

    /// The names of all repositories: `default`, then the registered ones.
    pub open spec fn names(&self) -> Seq<Seq<char>> {
        seq!["default"@] + names_of(self.records())
    }

    /// Whether a repository named `name` exists.
    pub open spec fn has(&self, name: Seq<char>) -> bool {
        self.names().contains(name)
    }

    /// The repository named `name`, where one exists.
    pub open spec fn record_of(&self, name: Seq<char>) -> RepositoryRecord {
        if name == "default"@ {
            self.fallback()
        } else {
            self.records()[names_of(self.records()).index_of(name)]
        }
    }

    /// What every registry is: the registered records are registrable, the
    /// default repository is named `default`, is described as the default
    /// and is local, and no more records count as persisted than there are.
    #[verifier::type_invariant]
    pub open spec fn wf(&self) -> bool {
        &&& registrable(self.records())
        &&& self.fallback().name@ == "default"@
        &&& self.fallback().description@ == "Default template repository"@
        &&& self.fallback().remote is None
        &&& 0 <= self.persisted() <= self.records().len()
    }

    /// A registry without registered repositories.
    pub fn new() -> (registry: Registry)
        ensures
            registry.wf(),
            registry.records().len() == 0,
            registry.persisted() == 0,
    {
        let fallback = RepositoryRecord {
            name: String::from_str("default"),
            description: String::from_str("Default template repository"),
            remote: None,
        };
        let registry = Registry { fallback, records: Vec::new(), saved: 0 };
        assert(names_of(registry.records()) =~= Seq::empty());
        registry
    }

    /// A registry of the repositories that the store holds: all of them
    /// count as persisted. Fails with `DuplicateName` where two of them
    /// share a name or one is named `default`.
    pub fn from_records(records: Vec<RepositoryRecord>) -> (r: Result<Registry, CoreError>)
        requires
            forall|i: int| 0 <= i < records.len() ==> (#[trigger] records[i]).wf(),
        ensures
            r is Ok <==> registrable(records@),
            r matches Ok(registry) ==> registry.wf() && registry.records() == records@
                && registry.persisted() == records.len(),
            r matches Err(e) ==> e == CoreError::DuplicateName,
    {
        let mut i: usize = 0;
        assert(names_of(records@.take(0)) =~= Seq::empty());
        while i < records.len()
            invariant
                i <= records.len(),
                forall|i: int| 0 <= i < records.len() ==> (#[trigger] records[i]).wf(),
                registrable(records@.take(i as int)),
            decreases records.len() - i,
        {
            let ghost before = names_of(records@.take(i as int));
            let ghost after = names_of(records@.take(i + 1));
            assert(after =~= before.push(records@[i as int].name@));
            let ghost all = names_of(records@);
            assert(all[i as int] == records@[i as int].name@);
            if same_text(&records[i].name, "default") {
                return Err(CoreError::DuplicateName);
            }
            if let Some(k) = position(&records, i, &records[i].name) {
                assert(all[k as int] == all[i as int]);
                return Err(CoreError::DuplicateName);
            }
            i += 1;
        }
        assert(records@.take(records.len() as int) == records@);
        let fallback = RepositoryRecord {
            name: String::from_str("default"),
            description: String::from_str("Default template repository"),
            remote: None,
        };
        let saved = records.len();
        Ok(Registry { fallback, records, saved })
    }

    /// The repositories that were registered, oldest first.
    pub fn entries(&self) -> (r: &Vec<RepositoryRecord>)
        ensures
            r@ == self.records(),
    {
        &self.records
    }

    /// The names of all repositories, `default` first.
    pub fn list_names(&self) -> (names: Vec<String>)
        ensures
            texts_of(names@) == self.names(),
            self.names().no_duplicates(),
    {
        proof {
            use_type_invariant(self);
            self.lemma_names_differ();
        }
        let mut names: Vec<String> = Vec::new();
        names.push(self.fallback.name.clone());
        assert(texts_of(names@) =~= seq!["default"@] + names_of(self.records@.take(0)));
        let mut i: usize = 0;
        while i < self.records.len()
            invariant
                i <= self.records.len(),
                texts_of(names@) == seq!["default"@] + names_of(self.records@.take(i as int)),
            decreases self.records.len() - i,
        {
            let ghost before = names@;
            let name = self.records[i].name.clone();
            names.push(name);
            i += 1;
            assert(texts_of(names@) =~= texts_of(before).push(name@));
            assert(names_of(self.records@.take(i as int)) =~= names_of(
                self.records@.take(i - 1),
            ).push(name@));
        }
        assert(self.records@.take(self.records.len() as int) == self.records@);
        names
    }

    /// The repository `default` exists in every registry.
    pub proof fn lemma_has_default(&self)
        ensures
            self.has("default"@),
    {
        assert(self.names()[0] == "default"@);
    }

    /// In a well-formed registry no two repositories share a name, the
    /// default one included.
    pub proof fn lemma_names_differ(&self)
        requires
            self.wf(),
        ensures
            self.names().no_duplicates(),
    {
        let names = self.names();
        let registered = names_of(self.records());
        assert forall|i: int, j: int| 0 <= i < names.len() && 0 <= j < names.len() && i != j implies names[i]
            != names[j] by {
            if i > 0 {
                assert(names[i] == registered[i - 1]);
            }
            if j > 0 {
                assert(names[j] == registered[j - 1]);
            }
        }
    }

    /// Whether a repository named `name` exists.
    pub fn contains(&self, name: &str) -> (r: bool)
        ensures
            r == self.has(name@),
    {
        self.find(name).is_ok()
    }

    /// The repository named `name`. Fails with `NotFound` where there is
    /// none; `default` is always found.
    pub fn find(&self, name: &str) -> (r: Result<&RepositoryRecord, CoreError>)
        ensures
            r is Ok <==> self.has(name@),
            r matches Ok(record) ==> record.name@ == name@ && *record == self.record_of(name@),
            r matches Err(e) ==> e == CoreError::NotFound,
    {
        proof {
            use_type_invariant(self);
        }
        let wanted = String::from_str(name);
        let ghost names = names_of(self.records@);
        assert(self.records@.take(self.records.len() as int) == self.records@);
        if same_text(&wanted, "default") {
            assert(self.names()[0] == name@);
            return Ok(&self.fallback);
        }
        match position(&self.records, self.records.len(), &wanted) {
            Some(i) => {
                assert(names[i as int] == name@);
                assert(self.names()[i + 1] == name@);
                proof {
                    let k = names.index_of(name@);
                    assert(names[k] == names[i as int]);
                }
                Ok(&self.records[i])
            },
            None => {
                proof {
                    if self.has(name@) {
                        let k = choose|k: int| 0 <= k < self.names().len() && self.names()[k] == name@;
                        assert(names[k - 1] == name@);
                    }
                }
                Err(CoreError::NotFound)
            },
        }
    }

    /// Takes note of how saving the registry went. After a success every
    /// registered repository counts as persisted. After a failure, reported
    /// as `PersistenceFailed`, the repositories that were registered since
    /// the last success are gone.
    pub fn settle(&mut self, saved: bool) -> (r: Result<(), CoreError>)
        ensures
            final(self).wf(),
            final(self).fallback() == old(self).fallback(),
            saved ==> r == Ok::<(), CoreError>(()) && final(self).records() == old(self).records()
                && final(self).persisted() == old(self).records().len(),
            !saved ==> r == Err::<(), CoreError>(CoreError::PersistenceFailed)
                && final(self).records() == old(self).records().take(old(self).persisted())
                && final(self).persisted() == old(self).persisted(),
    {
        proof {
            use_type_invariant(&*self);
        }
        if saved {
            self.saved = self.records.len();
            Ok(())
        } else {
            let ghost before = self.records@;
            let saved = self.saved;
            let mut records: Vec<RepositoryRecord> = Vec::new();
            assert(names_of(records@) =~= Seq::empty());
            self.saved = 0;
            std::mem::swap(&mut records, &mut self.records);
            records.truncate(saved);
            proof {
                let kept = before.take(saved as int);
                assert(records@ =~= kept);
                assert forall|i: int, j: int|
                    0 <= i < kept.len() && 0 <= j < kept.len() && i != j implies names_of(kept)[i]
                    != names_of(kept)[j] by {
                    assert(names_of(before)[i] == names_of(kept)[i]);
                    assert(names_of(before)[j] == names_of(kept)[j]);
                }
                assert forall|i: int| 0 <= i < kept.len() implies names_of(kept)[i] != "default"@ by {
                    assert(names_of(before)[i] == names_of(kept)[i]);
                }
            }
            self.records = records;
            self.saved = saved;
            Err(CoreError::PersistenceFailed)
        }
    }
}

/// Registers `record`. Fails with `DuplicateName`, and changes nothing,
/// where a repository of that name exists, be it `default`.
pub fn add(registry: &mut Registry, record: RepositoryRecord) -> (r: Result<(), CoreError>)
    requires
        record.wf(),
    ensures
        final(registry).wf(),
        final(registry).names().no_duplicates(),
        final(registry).fallback() == old(registry).fallback(),
        final(registry).persisted() == old(registry).persisted(),
        old(registry).has(record.name@) ==> r == Err::<(), CoreError>(CoreError::DuplicateName)
            && *final(registry) == *old(registry),
        !old(registry).has(record.name@) ==> r == Ok::<(), CoreError>(()) && final(registry).records()
            == old(registry).records().push(record),
{
    proof {
        use_type_invariant(&*registry);
        registry.lemma_names_differ();
    }
    let ghost names = names_of(registry.records@);
    assert(registry.records@.take(registry.records.len() as int) == registry.records@);
    if same_text(&record.name, "default") {
        assert(registry.names()[0] == record.name@);
        return Err(CoreError::DuplicateName);
    }
    if let Some(i) = position(&registry.records, registry.records.len(), &record.name) {
        assert(names[i as int] == record.name@);
        assert(registry.names()[i + 1] == record.name@);
        return Err(CoreError::DuplicateName);
    }
    proof {
        if registry.has(record.name@) {
            let k = choose|k: int|
                0 <= k < registry.names().len() && registry.names()[k] == record.name@;
            assert(names[k - 1] == record.name@);
        }
        assert(names_of(registry.records@.push(record)) =~= names.push(record.name@));
    }
    let saved = registry.saved;
    let mut records: Vec<RepositoryRecord> = Vec::new();
    assert(names_of(records@) =~= Seq::empty());
    registry.saved = 0;
    std::mem::swap(&mut records, &mut registry.records);
    records.push(record);
    registry.records = records;
    registry.saved = saved;
    proof {
        registry.lemma_names_differ();
    }
    Ok(())
}

/// Once a record is registered its name is taken, and so is every name
/// that was taken before: a second registration under one of them fails.
pub proof fn lemma_registered_name_taken(before: Registry, after: Registry, record: RepositoryRecord)
    requires
        after.records() == before.records().push(record),
    ensures
        after.has(record.name@),
        forall|name: Seq<char>| before.has(name) ==> after.has(name),
{
    let names = after.names();
    assert(names[names.len() - 1] == record.name@);
    assert forall|name: Seq<char>| before.has(name) implies after.has(name) by {
        let k = choose|k: int| 0 <= k < before.names().len() && before.names()[k] == name;
        assert(names[k] == name);
    }
}

/// Where every registered repository was persisted, one more is
/// registered and saving then fails, the registered repositories are those
/// from before the registration.
pub proof fn lemma_failed_save_undoes(before: Registry, added: Registry, settled: Registry, record: RepositoryRecord)
    requires
        before.persisted() == before.records().len(),
        added.records() == before.records().push(record),
        added.persisted() == before.persisted(),
        settled.records() == added.records().take(added.persisted()),
    ensures
        settled.records() == before.records(),
{
    assert(settled.records() =~= before.records());
}

} // verus!
