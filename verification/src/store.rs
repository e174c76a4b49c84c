//! The persistent entry store: an in-memory index of records, unique by
//! service name, together with the synchronization contract between the
//! index and the persisted form.
//!
//! The store itself performs no file access. Loading takes the current
//! content of the backing file as an argument; every mutating operation
//! returns the full persisted form of the new index, which the caller is
//! expected to write to the backing file. A failed write is the caller's to
//! report; the index is not rolled back, so memory may run ahead of disk
//! until the next successful write.

use vstd::prelude::*;

use crate::codec::Record;
use crate::codec::decode_recs;
use crate::codec::encode_recs;
use crate::codec::lemma_decode_encode;
use crate::codec::parse_entries;
use crate::codec::rec_ok;
use crate::codec::render_entries;
use crate::codec::str_eq;
use crate::codec::views_of;
use crate::password::PasswordEntry;

verus! {

/// Why a store operation could not do its work.
#[derive(Clone, Copy, PartialEq, Eq, Structural, Debug)]
pub enum StoreError {
    /// The targeted service has no record in the persisted state. An
    /// expected outcome, not a failure of the store.
    NotFound,
    /// The backing content is not a well-formed record encoding. Rejected
    /// outright rather than read partially: silently discarding unreadable
    /// records would lose data without a word.
    Malformed,
}

impl StoreError {
    /// A human-readable description, for the caller to show.
    pub fn message(&self) -> (m: &'static str)
        ensures
            m@ == match *self {
                StoreError::NotFound => "Could not find an entry for service"@,
                StoreError::Malformed => "The stored passwords file is malformed"@,
            },
    {
        match *self {
            StoreError::NotFound => "Could not find an entry for service",
            StoreError::Malformed => "The stored passwords file is malformed",
        }
    }
}

/// No two records share a service name.
pub open spec fn unique_services(rs: Seq<Record>) -> bool {
    forall|i: int, j: int| 0 <= i < j < rs.len() ==> rs[i].0 != rs[j].0
}

/// Some record carries the service name `s`.
pub open spec fn contains_service(rs: Seq<Record>, s: Seq<char>) -> bool {
    exists|i: int| 0 <= i < rs.len() && rs[i].0 == s
}

/// The position of the first record carrying the service name `s`, if any.
pub open spec fn find_service(rs: Seq<Record>, s: Seq<char>) -> Option<int>
    decreases rs.len(),
{
    if rs.len() == 0 {
        None
    } else if rs[0].0 == s {
        Some(0int)
    } else {
        match find_service(rs.drop_first(), s) {
            Some(i) => Some(i + 1),
            None => None,
        }
    }
}

/// Insert a record into an index: replace the record already carrying its
/// service name, or append it at the end.
pub open spec fn add_rec(rs: Seq<Record>, r: Record) -> Seq<Record> {
    match find_service(rs, r.0) {
        Some(i) => rs.update(i, r),
        None => rs.push(r),
    }
}

/// Insert records one after the other, first to last.
pub open spec fn fold_add(acc: Seq<Record>, rs: Seq<Record>) -> Seq<Record>
    decreases rs.len(),
{
    if rs.len() == 0 {
        acc
    } else {
        fold_add(add_rec(acc, rs[0]), rs.drop_first())
    }
}

/// The index as a mapping from service name to (username, password); a later
/// record for the same service wins, as repeated insertion would have it.
pub open spec fn as_map(rs: Seq<Record>) -> Map<Seq<char>, (Seq<char>, Seq<char>)>
    decreases rs.len(),
{
    if rs.len() == 0 {
        Map::empty()
    } else {
        as_map(rs.drop_last()).insert(rs.last().0, (rs.last().1, rs.last().2))
    }
}

/// `find_service` finds the first record with the given service: where it
/// returns an index, that record carries `s` and none before it does; where
/// it returns `None`, no record does.
pub proof fn lemma_find_service_props(rs: Seq<Record>, s: Seq<char>)
    ensures
        match find_service(rs, s) {
            Some(i) => 0 <= i < rs.len() && rs[i].0 == s && (forall|j: int|
                0 <= j < i ==> rs[j].0 != s),
            None => forall|j: int| 0 <= j < rs.len() ==> rs[j].0 != s,
        },
    decreases rs.len(),
{
    if rs.len() == 0 {
    } else if rs[0].0 == s {
    } else {
        lemma_find_service_props(rs.drop_first(), s);
        match find_service(rs.drop_first(), s) {
            Some(i) => {
                assert(rs.drop_first()[i] == rs[i + 1]);
                assert forall|j: int| 0 <= j < i + 1 implies rs[j].0 != s by {
                    if j > 0 {
                        assert(rs.drop_first()[j - 1] == rs[j]);
                    }
                }
            },
            None => {
                assert forall|j: int| 0 <= j < rs.len() implies rs[j].0 != s by {
                    if j > 0 {
                        assert(rs.drop_first()[j - 1] == rs[j]);
                    }
                }
            },
        }
    }
}

/// A service is a key of the index mapping exactly when some record carries
/// it.
pub proof fn lemma_as_map_contains(rs: Seq<Record>, s: Seq<char>)
    ensures
        as_map(rs).contains_key(s) <==> contains_service(rs, s),
    decreases rs.len(),
{
    if rs.len() == 0 {
    } else {
        lemma_as_map_contains(rs.drop_last(), s);
        if rs.last().0 == s {
            assert(rs[rs.len() - 1].0 == s);
            assert(contains_service(rs, s));
        } else {
            if contains_service(rs.drop_last(), s) {
                let i = choose|i: int| 0 <= i < rs.drop_last().len() && rs.drop_last()[i].0 == s;
                assert(rs[i].0 == s);
                assert(contains_service(rs, s));
            }
            if contains_service(rs, s) {
                let i = choose|i: int| 0 <= i < rs.len() && rs[i].0 == s;
                assert(i < rs.len() - 1);
                assert(rs.drop_last()[i].0 == s);
                assert(contains_service(rs.drop_last(), s));
            }
        }
    }
}

/// In an index with unique services, the mapping holds for each record
/// exactly its own username and password.
pub proof fn lemma_as_map_lookup(rs: Seq<Record>, i: int)
    requires
        unique_services(rs),
        0 <= i < rs.len(),
    ensures
        as_map(rs).contains_key(rs[i].0),
        as_map(rs)[rs[i].0] == (rs[i].1, rs[i].2),
    decreases rs.len(),
{
    if i == rs.len() - 1 {
    } else {
        assert(unique_services(rs.drop_last())) by {
            assert(forall|x: int, y: int|
                0 <= x < y < rs.drop_last().len() ==> rs.drop_last()[x] == rs[x]
                    && rs.drop_last()[y] == rs[y]);
        }
        assert(rs.drop_last()[i] == rs[i]);
        lemma_as_map_lookup(rs.drop_last(), i);
        assert(rs.last().0 != rs[i].0);
    }
}

/// Inserting a record replaces by service name: the mapping gains exactly
/// that one binding, uniqueness is preserved, and no second record appears
/// when the service was already present.
pub proof fn lemma_add_rec(rs: Seq<Record>, r: Record)
    requires
        unique_services(rs),
    ensures
        unique_services(add_rec(rs, r)),
        as_map(add_rec(rs, r)) == as_map(rs).insert(r.0, (r.1, r.2)),
        contains_service(rs, r.0) ==> add_rec(rs, r).len() == rs.len(),
        !contains_service(rs, r.0) ==> add_rec(rs, r).len() == rs.len() + 1,
    decreases rs.len(),
{
    lemma_find_service_props(rs, r.0);
    match find_service(rs, r.0) {
        None => {
            let out = rs.push(r);
            assert(!contains_service(rs, r.0));
            assert(out.drop_last() =~= rs);
            assert(out.last() == r);
            assert(unique_services(out)) by {
                assert(forall|x: int| 0 <= x < rs.len() ==> out[x] == rs[x]);
            }
        },
        Some(i) => {
            assert(contains_service(rs, r.0));
            let out = rs.update(i, r);
            assert(unique_services(out)) by {
                assert forall|x: int, y: int| 0 <= x < y < out.len() implies out[x].0
                    != out[y].0 by {
                    if x != i && y != i {
                        assert(out[x] == rs[x] && out[y] == rs[y]);
                    } else if x == i {
                        assert(out[x].0 == rs[i].0 && out[y] == rs[y]);
                    } else {
                        assert(out[y].0 == rs[i].0 && out[x] == rs[x]);
                    }
                }
            }
            if i == rs.len() - 1 {
                assert(out.drop_last() =~= rs.drop_last());
                assert(as_map(out) == as_map(rs.drop_last()).insert(r.0, (r.1, r.2)));
                assert(as_map(rs) == as_map(rs.drop_last()).insert(rs.last().0, (rs.last().1,
                rs.last().2)));
                assert(rs.last().0 == r.0);
                assert(as_map(rs.drop_last()).insert(rs.last().0, (rs.last().1, rs.last().2)).insert(
                    r.0,
                    (r.1, r.2),
                ) =~= as_map(rs.drop_last()).insert(r.0, (r.1, r.2)));
            } else {
                assert(unique_services(rs.drop_last())) by {
                    assert(forall|x: int| 0 <= x < rs.len() - 1 ==> rs.drop_last()[x] == rs[x]);
                }
                assert(rs.drop_last()[i] == rs[i]);
                lemma_find_service_props(rs.drop_last(), r.0);
                assert(find_service(rs.drop_last(), r.0) == Some(i)) by {
                    match find_service(rs.drop_last(), r.0) {
                        Some(k) => {
                            assert(rs.drop_last()[k] == rs[k]);
                        },
                        None => {
                            assert(rs.drop_last()[i].0 == r.0);
                        },
                    }
                }
                lemma_add_rec(rs.drop_last(), r);
                assert(out.drop_last() =~= rs.drop_last().update(i, r));
                assert(out.last() == rs.last());
                assert(as_map(out) == as_map(rs.drop_last()).insert(r.0, (r.1, r.2)).insert(
                    rs.last().0,
                    (rs.last().1, rs.last().2),
                ));
                assert(rs.last().0 != r.0);
                assert(as_map(rs.drop_last()).insert(r.0, (r.1, r.2)).insert(rs.last().0, (
                rs.last().1, rs.last().2)) =~= as_map(rs.drop_last()).insert(rs.last().0, (
                rs.last().1, rs.last().2)).insert(r.0, (r.1, r.2)));
            }
        },
    }
}

/// A service once present stays present across any later insertion: no
/// operation removes records.
pub proof fn lemma_exists_monotonic(rs: Seq<Record>, r: Record, s: Seq<char>)
    requires
        contains_service(rs, s),
    ensures
        contains_service(add_rec(rs, r), s),
{
    let w = choose|i: int| 0 <= i < rs.len() && rs[i].0 == s;
    lemma_find_service_props(rs, r.0);
    match find_service(rs, r.0) {
        None => {
            assert(rs.push(r)[w] == rs[w]);
        },
        Some(k) => {
            if k == w {
                assert(rs.update(k, r)[k].0 == s);
            } else {
                assert(rs.update(k, r)[w] == rs[w]);
            }
        },
    }
}

/// A service once present stays present across a whole reload as well:
/// folding records into the index only ever inserts.
pub proof fn lemma_exists_monotonic_fold(acc: Seq<Record>, rs: Seq<Record>, s: Seq<char>)
    requires
        contains_service(acc, s),
    ensures
        contains_service(fold_add(acc, rs), s),
    decreases rs.len(),
{
    if rs.len() == 0 {
    } else {
        lemma_exists_monotonic(acc, rs[0], s);
        lemma_exists_monotonic_fold(add_rec(acc, rs[0]), rs.drop_first(), s);
    }
}

/// Folding one more record inserts it after the others.
pub proof fn lemma_fold_add_snoc(acc: Seq<Record>, rs: Seq<Record>, r: Record)
    ensures
        fold_add(acc, rs.push(r)) == add_rec(fold_add(acc, rs), r),
    decreases rs.len(),
{
    if rs.len() == 0 {
        assert(rs.push(r)[0] == r);
        assert(rs.push(r).drop_first() =~= Seq::<Record>::empty());
        assert(fold_add(acc, rs.push(r)) == fold_add(add_rec(acc, r), rs.push(r).drop_first()));
        assert(fold_add(add_rec(acc, r), rs.push(r).drop_first()) == add_rec(acc, r));
        assert(fold_add(acc, rs) == acc);
    } else {
        assert(rs.push(r)[0] == rs[0]);
        assert(rs.push(r).drop_first() =~= rs.drop_first().push(r));
        lemma_fold_add_snoc(add_rec(acc, rs[0]), rs.drop_first(), r);
        assert(fold_add(acc, rs.push(r)) == fold_add(
            add_rec(acc, rs[0]),
            rs.drop_first().push(r),
        ));
        assert(fold_add(acc, rs) == fold_add(add_rec(acc, rs[0]), rs.drop_first()));
    }
}

/// Folding records whose services are distinct from each other and from the
/// index appends them unchanged.
pub proof fn lemma_fold_add_identity(acc: Seq<Record>, rs: Seq<Record>)
    requires
        unique_services(acc + rs),
    ensures
        fold_add(acc, rs) == acc + rs,
    decreases rs.len(),
{
    if rs.len() == 0 {
        assert(acc + rs =~= acc);
    } else {
        assert forall|j: int| 0 <= j < acc.len() implies acc[j].0 != rs[0].0 by {
            assert((acc + rs)[j] == acc[j]);
            assert((acc + rs)[acc.len() as int] == rs[0]);
        }
        lemma_find_service_props(acc, rs[0].0);
        assert(find_service(acc, rs[0].0) is None) by {
            match find_service(acc, rs[0].0) {
                Some(k) => {
                    assert(acc[k].0 != rs[0].0);
                },
                None => {},
            }
        }
        assert(add_rec(acc, rs[0]) == acc.push(rs[0]));
        assert(acc.push(rs[0]) + rs.drop_first() =~= acc + rs);
        lemma_fold_add_identity(acc.push(rs[0]), rs.drop_first());
        assert(fold_add(acc, rs) == fold_add(acc.push(rs[0]), rs.drop_first()));
    }
}

/// Round trip: the persisted form of an index with unique services and
/// faithfully encodable records decodes to exactly those records, and
/// folding them into an empty index restores them unchanged. A store saved
/// and reloaded from its own output therefore holds what it held.
pub proof fn lemma_round_trip(rs: Seq<Record>)
    requires
        unique_services(rs),
        forall|i: int| 0 <= i < rs.len() ==> rec_ok(#[trigger] rs[i]),
    ensures
        decode_recs(encode_recs(rs)) == Some(rs),
        fold_add(Seq::<Record>::empty(), rs) == rs,
{
    lemma_decode_encode(rs);
    assert(Seq::<Record>::empty() + rs =~= rs);
    lemma_fold_add_identity(Seq::<Record>::empty(), rs);
}

/// The position of the first entry whose service equals `service`.
fn find_entry(es: &Vec<PasswordEntry>, service: &str) -> (r: Option<usize>)
    ensures
        match r {
            Some(i) => i < es@.len() && views_of(es@)[i as int].0 == service@ && (forall|j: int|
                0 <= j < i ==> views_of(es@)[j].0 != service@),
            None => forall|j: int| 0 <= j < es@.len() ==> views_of(es@)[j].0 != service@,
        },
{
    let n = es.len();
    let mut i: usize = 0;
    while i < n
        invariant
            i <= n,
            n == es@.len(),
            forall|j: int| 0 <= j < i ==> views_of(es@)[j].0 != service@,
        decreases n - i,
    {
        if str_eq(es[i].service.as_str(), service) {
            return Some(i);
        }
        i += 1;
    }
    None
}

/// Insert an entry into a vector of entries, replacing by service name.
fn vec_add(es: &mut Vec<PasswordEntry>, entry: PasswordEntry)
    requires
        unique_services(views_of(old(es)@)),
    ensures
        views_of(final(es)@) == add_rec(views_of(old(es)@), entry@),
        unique_services(views_of(final(es)@)),
{
    proof {
        lemma_add_rec(views_of(es@), entry@);
    }
    let found = find_entry(es, entry.service.as_str());
    proof {
        lemma_find_service_props(views_of(es@), entry.service@);
    }
    match found {
        Some(i) => {
            proof {
                assert(find_service(views_of(es@), entry@.0) == Some(i as int));
            }
            let ghost before = es@;
            es[i] = entry;
            proof {
                assert(views_of(es@) =~= views_of(before).update(i as int, es@[i as int]@));
            }
        },
        None => {
            proof {
                assert(find_service(views_of(es@), entry@.0) is None) by {
                    match find_service(views_of(es@), entry@.0) {
                        Some(k) => {
                            assert(views_of(es@)[k].0 != entry.service@);
                        },
                        None => {},
                    }
                }
            }
            let ghost before = es@;
            es.push(entry);
            proof {
                assert(views_of(es@) =~= views_of(before).push(es@[es@.len() - 1]@));
            }
        },
    }
}

/// The persistent entry store. `passwords` is the in-memory index, unique by
/// service name; `file_path` names the backing file for the caller's use.
#[derive(Debug)]
pub struct PasswordStore {
    passwords: Vec<PasswordEntry>,
    file_path: String,
}

impl View for PasswordStore {
    type V = Map<Seq<char>, (Seq<char>, Seq<char>)>;

    open spec fn view(&self) -> Self::V {
        as_map(self.recs())
    }
}

impl PasswordStore {
    /// The record views of the in-memory index, in index order.
    pub closed spec fn recs(&self) -> Seq<Record> {
        views_of(self.passwords@)
    }

    /// The backing file path, as the store was given it.
    pub closed spec fn path(&self) -> Seq<char> {
        self.file_path@
    }

    /// The store's invariant: no two records share a service name.
    pub open spec fn wf(&self) -> bool {
        unique_services(self.recs())
    }

    /// A fresh store over the given path, with an empty index. In-memory
    /// construction cannot fail; creating the backing file, where it does
    /// not yet exist, is the caller's step.
    pub fn new(file_path: String) -> (r: Result<PasswordStore, StoreError>)
        ensures
            r matches Ok(s) && s.wf() && s.recs() == Seq::<Record>::empty() && s@ == Map::<
                Seq<char>,
                (Seq<char>, Seq<char>),
            >::empty() && s.path() == file_path@,
    {
        let s = PasswordStore { passwords: Vec::new(), file_path };
        proof {
            assert(s.recs() =~= Seq::<Record>::empty());
        }
        Ok(s)
    }

    /// Fill the index from the backing file's content: each decoded record
    /// is inserted in turn, a later record for a service overriding an
    /// earlier one. Content that does not decode leaves the store untouched
    /// and reports `Malformed`.
    pub fn load(&mut self, content: &str) -> (r: Result<(), StoreError>)
        requires
            old(self).wf(),
        ensures
            final(self).wf(),
            final(self).path() == old(self).path(),
            match r {
                Ok(()) => decode_recs(content@) matches Some(ds) && final(self).recs() == fold_add(
                    old(self).recs(),
                    ds,
                ),
                Err(e) => e == StoreError::Malformed && decode_recs(content@) is None && *final(self)
                    == *old(self),
            },
    {
        let parsed = parse_entries(content);
        match parsed {
            None => Err(StoreError::Malformed),
            Some(v) => {
                let ghost ds = views_of(v@);
                let ghost start = self.recs();
                let n = v.len();
                let mut i: usize = 0;
                proof {
                    assert(ds.take(0) =~= Seq::<Record>::empty());
                }
                while i < n
                    invariant
                        i <= n,
                        n == v@.len(),
                        ds == views_of(v@),
                        unique_services(self.recs()),
                        self.recs() == fold_add(start, ds.take(i as int)),
                        self.path() == old(self).path(),
                    decreases n - i,
                {
                    let e = v[i].clone();
                    proof {
                        assert(e@ == ds[i as int]);
                        assert(ds.take(i + 1) =~= ds.take(i as int).push(ds[i as int]));
                        lemma_fold_add_snoc(start, ds.take(i as int), ds[i as int]);
                    }
                    vec_add(&mut self.passwords, e);
                    i += 1;
                }
                proof {
                    assert(ds.take(n as int) =~= ds);
                }
                Ok(())
            },
        }
    }

    /// Insert a record into the in-memory index only: the record already
    /// carrying its service name is replaced, otherwise the record is
    /// appended. The backing file is not involved.
    pub fn add(&mut self, entry: PasswordEntry)
        requires
            old(self).wf(),
        ensures
            final(self).wf(),
            final(self).recs() == add_rec(old(self).recs(), entry@),
            final(self)@ == old(self)@.insert(entry@.0, (entry@.1, entry@.2)),
            final(self).path() == old(self).path(),
    {
        proof {
            lemma_add_rec(self.recs(), entry@);
        }
        vec_add(&mut self.passwords, entry);
    }

    /// Exact, case-sensitive lookup by service name. Returns the stored
    /// record, or nothing when the service has none; no side effects.
    pub fn get(&self, service: &str) -> (r: Option<&PasswordEntry>)
        requires
            self.wf(),
        ensures
            match r {
                Some(e) => self@.contains_key(service@) && e@.0 == service@ && self@[service@] == (
                    e@.1,
                    e@.2,
                ),
                None => !self@.contains_key(service@),
            },
    {
        proof {
            lemma_as_map_contains(self.recs(), service@);
        }
        let found = find_entry(&self.passwords, service);
        match found {
            Some(i) => {
                proof {
                    lemma_as_map_lookup(self.recs(), i as int);
                }
                Some(&self.passwords[i])
            },
            None => None,
        }
    }

    /// The backing file path.
    pub fn get_file_path(&self) -> (p: String)
        ensures
            p@ == self.path(),
    {
        self.file_path.clone()
    }

    /// How many records the index holds.
    pub fn len(&self) -> (n: usize)
        ensures
            n == self.recs().len(),
    {
        self.passwords.len()
    }

    /// The (service, username) pair of every record, in index order.
    /// Passwords are deliberately not included, so listing discloses no
    /// secret.
    pub fn list_all(&self) -> (r: Vec<(String, String)>)
        ensures
            r@.len() == self.recs().len(),
            forall|i: int| 0 <= i < r@.len() ==> (#[trigger] r@[i]).0@ == self.recs()[i].0
                && r@[i].1@ == self.recs()[i].1,
    {
        let n = self.passwords.len();
        let mut out: Vec<(String, String)> = Vec::new();
        let mut i: usize = 0;
        while i < n
            invariant
                i <= n,
                n == self.passwords@.len(),
                out@.len() == i,
                forall|j: int| 0 <= j < i ==> (#[trigger] out@[j]).0@ == self.recs()[j].0
                    && out@[j].1@ == self.recs()[j].1,
            decreases n - i,
        {
            let e = &self.passwords[i];
            out.push((e.service.clone(), e.username.clone()));
            i += 1;
        }
        out
    }

    /// Whether the index already has a record for `service`: true exactly
    /// when a prior insertion used that service name. Callers use this as
    /// the duplicate pre-check before creating a new entry; `add` itself
    /// overwrites rather than rejects.
    pub fn check_for_duplicate_service_entry(&self, service: &str) -> (dup: bool)
        requires
            self.wf(),
        ensures
            dup == self@.contains_key(service@),
    {
        proof {
            lemma_as_map_contains(self.recs(), service@);
        }
        let found = find_entry(&self.passwords, service);
        found.is_some()
    }

    /// Insert a record and derive the persisted form of the whole new index,
    /// for the caller to write to the backing file. The index keeps the
    /// record whether or not that write then succeeds.
    pub fn add_and_save_entry(&mut self, entry: PasswordEntry) -> (content: String)
        requires
            old(self).wf(),
        ensures
            final(self).wf(),
            final(self).recs() == add_rec(old(self).recs(), entry@),
            final(self)@ == old(self)@.insert(entry@.0, (entry@.1, entry@.2)),
            final(self).path() == old(self).path(),
            content@ == encode_recs(final(self).recs()),
    {
        self.add(entry);
        render_entries(&self.passwords)
    }

    /// Update the record of an already-stored service. The persisted state
    /// is re-read from `current`, the backing file's content as it stands,
    /// rather than from the in-memory index, so edits made behind the
    /// store's back are not overwritten. Where the freshly-read state has no
    /// record of the service, nothing changes and `NotFound` is reported;
    /// otherwise the record is replaced, the new persisted form returned for
    /// the caller to write, and the index set to match it.
    pub fn update_entry(&mut self, entry: PasswordEntry, current: &str) -> (r: Result<
        String,
        StoreError,
    >)
        requires
            old(self).wf(),
        ensures
            final(self).wf(),
            final(self).path() == old(self).path(),
            match r {
                Ok(content) => decode_recs(current@) matches Some(ds) && {
                    let disk = fold_add(Seq::<Record>::empty(), ds);
                    &&& as_map(disk).contains_key(entry@.0)
                    &&& final(self).recs() == add_rec(disk, entry@)
                    &&& final(self)@ == as_map(disk).insert(entry@.0, (entry@.1, entry@.2))
                    &&& content@ == encode_recs(final(self).recs())
                },
                Err(StoreError::NotFound) => {
                    &&& decode_recs(current@) matches Some(ds) && !as_map(
                        fold_add(Seq::<Record>::empty(), ds),
                    ).contains_key(entry@.0)
                    &&& *final(self) == *old(self)
                },
                Err(StoreError::Malformed) => decode_recs(current@) is None && *final(self) == *old(
                    self,
                ),
            },
    {
        let parsed = match parse_entries(current) {
            None => {
                return Err(StoreError::Malformed);
            },
            Some(v) => v,
        };
        let ghost ds = views_of(parsed@);
        let mut disk: Vec<PasswordEntry> = Vec::new();
        let n = parsed.len();
        let mut i: usize = 0;
        proof {
            assert(views_of(disk@) =~= Seq::<Record>::empty());
            assert(ds.take(0) =~= Seq::<Record>::empty());
        }
        while i < n
            invariant
                i <= n,
                n == parsed@.len(),
                ds == views_of(parsed@),
                unique_services(views_of(disk@)),
                views_of(disk@) == fold_add(Seq::<Record>::empty(), ds.take(i as int)),
            decreases n - i,
        {
            let e = parsed[i].clone();
            proof {
                assert(e@ == ds[i as int]);
                assert(ds.take(i + 1) =~= ds.take(i as int).push(ds[i as int]));
                lemma_fold_add_snoc(Seq::<Record>::empty(), ds.take(i as int), ds[i as int]);
            }
            vec_add(&mut disk, e);
            i += 1;
        }
        proof {
            assert(ds.take(n as int) =~= ds);
        }
        proof {
            lemma_as_map_contains(views_of(disk@), entry.service@);
        }
        let found = find_entry(&disk, entry.service.as_str());
        if found.is_none() {
            return Err(StoreError::NotFound);
        }
        proof {
            lemma_add_rec(views_of(disk@), entry@);
        }
        vec_add(&mut disk, entry);
        let content = render_entries(&disk);
        self.passwords = disk;
        Ok(content)
    }
}

} // verus!
