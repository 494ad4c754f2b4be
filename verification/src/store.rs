//! The store and the installed-set, as the installer knows them.
//!
//! A keg is an unpacked artifact, named by its store key. It comes into
//! being in two steps: it is staged under a temporary name, and committed
//! under its own once it is complete. Only a committed keg counts. An
//! installed record says which keg a formula is installed from; every record
//! names a committed keg.
//!
//! The types here hold no files. The caller mirrors on disk what they
//! decide: it unpacks what is staged, renames what is committed, and deletes
//! what is removed.

use vstd::prelude::*;
use vstd::string::*;
use crate::errors::Error;
use crate::paths::{join, join_path};
use crate::places::lemma_room_left;
use crate::text::{chars_of, same_chars};

verus! {

/// What is known of an installed formula.
#[derive(Debug, PartialEq, Eq)]
pub struct InstalledRecord {
    pub name: String,
    pub version: String,
    pub store_key: String,
    /// When it was installed, in seconds since the epoch.
    pub installed_at: u64,
    /// Whether it was asked for, rather than pulled in by another formula.
    pub explicit: bool,
    /// The names of the formulas that it needs at run time.
    pub requested_deps: Vec<String>,
    pub keg_only: bool,
    /// The paths below the prefix that it owns.
    pub links: Vec<String>,
}

/// The committed kegs, the staged ones, and the installed records.
pub struct Store {
    kegs: Vec<String>,
    staged: Vec<String>,
    records: Vec<InstalledRecord>,
}

/// The first place of `key` in `keys`, or their number where it is absent.
pub open spec fn key_position(keys: Seq<Seq<char>>, key: Seq<char>) -> int
    decreases keys.len(),
{
    if keys.len() == 0 {
        0
    } else if keys[0] == key {
        0
    } else {
        1 + key_position(keys.skip(1), key)
    }
}

/// `key_position` passes no entry equal to `key` and stops on one.
pub proof fn lemma_key_position(keys: Seq<Seq<char>>, key: Seq<char>, i: int)
    requires
        0 <= i <= keys.len(),
        forall|j: int| 0 <= j < i ==> keys[j] != key,
        i < keys.len() ==> keys[i] == key,
    ensures
        key_position(keys, key) == i,
        (i < keys.len()) == keys.contains(key),
    decreases i,
{
    if i > 0 {
        let rest = keys.skip(1);
        assert(keys[0] != key);
        assert forall|j: int| 0 <= j < i - 1 implies rest[j] != key by {
            assert(rest[j] == keys[j + 1]);
        }
        lemma_key_position(rest, key, i - 1);
    }
    if keys.contains(key) {
        let x = choose|x: int| 0 <= x < keys.len() && keys[x] == key;
        assert(x >= i);
    }
}

/// `key_position` lies within `keys`, or at their end where `key` is
/// absent.
pub proof fn lemma_key_found(keys: Seq<Seq<char>>, key: Seq<char>)
    ensures
        0 <= key_position(keys, key) <= keys.len(),
        (key_position(keys, key) < keys.len()) == keys.contains(key),
        key_position(keys, key) < keys.len() ==> keys[key_position(keys, key)] == key,
    decreases keys.len(),
{
    if keys.len() > 0 && keys[0] != key {
        let rest = keys.skip(1);
        lemma_key_found(rest, key);
        if keys.contains(key) {
            let x = choose|x: int| 0 <= x < keys.len() && keys[x] == key;
            assert(rest[x - 1] == key);
        }
        if rest.contains(key) {
            let x = choose|x: int| 0 <= x < rest.len() && rest[x] == key;
            assert(keys[x + 1] == key);
        }
    } else if keys.len() > 0 {
        assert(keys[0] == key);
    }
}

/// The first place of `key` in `keys`, or their number where it is absent.
pub fn find_key(keys: &Vec<String>, key: &str) -> (i: usize)
    ensures
        i == key_position(keys.deep_view(), key@),
        i <= keys.len(),
        (i < keys.len()) == keys.deep_view().contains(key@),
        i < keys.len() ==> keys@[i as int]@ == key@,
        forall|j: int| 0 <= j < i ==> keys.deep_view()[j] != key@,
{
    let wanted = chars_of(key);
    let mut i: usize = 0;
    while i < keys.len()
        invariant
            i <= keys.len(),
            wanted@ == key@,
            forall|j: int| 0 <= j < i ==> keys.deep_view()[j] != key@,
        decreases keys.len() - i,
    {
        let have = chars_of(keys[i].as_str());
        assert(keys.deep_view()[i as int] == keys@[i as int]@);
        if same_chars(&have, &wanted) {
            proof {
                lemma_key_position(keys.deep_view(), key@, i as int);
            }
            return i;
        }
        i = i + 1;
    }
    proof {
        lemma_key_position(keys.deep_view(), key@, i as int);
    }
    i
}

/// The names of `records`, in order.
pub open spec fn record_names(records: Seq<InstalledRecord>) -> Seq<Seq<char>> {
    Seq::new(records.len(), |i: int| records[i].name@)
}

/// The place of the record named `name`, or the number of records where
/// there is none.
pub fn find_record(records: &Vec<InstalledRecord>, name: &str) -> (i: usize)
    ensures
        i == key_position(record_names(records@), name@),
        i <= records.len(),
        (i < records.len()) == record_names(records@).contains(name@),
        i < records.len() ==> records@[i as int].name@ == name@,
        forall|j: int| 0 <= j < i ==> records@[j].name@ != name@,
{
    let wanted = chars_of(name);
    let ghost names = record_names(records@);
    let mut i: usize = 0;
    while i < records.len()
        invariant
            i <= records.len(),
            wanted@ == name@,
            names == record_names(records@),
            forall|j: int| 0 <= j < i ==> names[j] != name@,
        decreases records.len() - i,
    {
        let have = chars_of(records[i].name.as_str());
        assert(names[i as int] == records@[i as int].name@);
        if same_chars(&have, &wanted) {
            proof {
                lemma_key_position(names, name@, i as int);
                assert forall|j: int| 0 <= j < i implies records@[j].name@ != name@ by {
                    assert(names[j] != name@);
                }
            }
            return i;
        }
        i = i + 1;
    }
    proof {
        lemma_key_position(names, name@, i as int);
        assert forall|j: int| 0 <= j < i implies records@[j].name@ != name@ by {
            assert(names[j] != name@);
        }
    }
    i
}

/// Where a keg lives below the root.
pub fn keg_path(root: &str, store_key: &str) -> (path: String)
    ensures
        path@ == join_path(join_path(root@, "store"@), store_key@),
{
    let store = join(root, "store");
    join(store.as_str(), store_key)
}

/// Where the installed-set is kept below the root.
pub fn db_path(root: &str) -> (path: String)
    ensures
        path@ == join_path(join_path(root@, "db"@), "installed"@),
{
    let db = join(root, "db");
    join(db.as_str(), "installed")
}

/// The file that guards changes of the installed-set between processes.
pub fn lock_path(root: &str) -> (path: String)
    ensures
        path@ == join_path(join_path(root@, "locks"@), "install.lock"@),
{
    let locks = join(root, "locks");
    join(locks.as_str(), "install.lock")
}

/// Where what was fetched from a URL is kept: below the cache, under the
/// digest of the URL.
pub fn cache_path(root: &str, url_digest: &str) -> (path: String)
    ensures
        path@ == join_path(join_path(root@, "cache"@), url_digest@),
{
    let cache = join(root, "cache");
    join(cache.as_str(), url_digest)
}

/// Where a keg is unpacked before it is committed: beside its final place,
/// under its name followed by `.tmp`.
pub fn staging_path(root: &str, store_key: &str) -> (path: String)
    ensures
        path@ == join_path(join_path(root@, "store"@), store_key@ + ".tmp"@),
{
    let store = join(root, "store");
    let mut name = String::from_str(store_key);
    name.append(".tmp");
    join(store.as_str(), name.as_str())
}

/// Adding an entry that a list without repeats lacks leaves it without
/// repeats.
pub proof fn lemma_push_distinct<A>(s: Seq<A>, x: A)
    requires
        s.no_duplicates(),
        !s.contains(x),
    ensures
        s.push(x).no_duplicates(),
        forall|y: A| s.push(x).contains(y) <==> s.contains(y) || y == x,
{
    let t = s.push(x);
    assert forall|i: int, j: int| 0 <= i < t.len() && 0 <= j < t.len() && i != j implies t[i]
        != t[j] by {
        if i < s.len() && j < s.len() {
        } else if i < s.len() {
            assert(s.contains(s[i]));
        } else {
            assert(s.contains(s[j]));
        }
    }
    assert forall|y: A| t.contains(y) <==> s.contains(y) || y == x by {
        if s.contains(y) {
            let i = choose|i: int| 0 <= i < s.len() && s[i] == y;
            assert(t[i] == y);
        }
        if y == x {
            assert(t[s.len() as int] == y);
        }
        if t.contains(y) {
            let i = choose|i: int| 0 <= i < t.len() && t[i] == y;
            if i < s.len() {
                assert(s[i] == y);
            }
        }
    }
}

/// A list with one more entry holds what it held, and the entry.
pub proof fn lemma_push_contains<A>(s: Seq<A>, x: A)
    ensures
        forall|y: A| s.push(x).contains(y) <==> s.contains(y) || y == x,
{
    let t = s.push(x);
    assert forall|y: A| t.contains(y) <==> s.contains(y) || y == x by {
        if s.contains(y) {
            let i = choose|i: int| 0 <= i < s.len() && s[i] == y;
            assert(t[i] == y);
        }
        if y == x {
            assert(t[s.len() as int] == y);
        }
        if t.contains(y) {
            let i = choose|i: int| 0 <= i < t.len() && t[i] == y;
            if i < s.len() {
                assert(s[i] == y);
            }
        }
    }
}

/// Taking an entry out of a list without repeats leaves the others, and no
/// repeats.
pub proof fn lemma_remove_distinct<A>(s: Seq<A>, i: int)
    requires
        s.no_duplicates(),
        0 <= i < s.len(),
    ensures
        s.remove(i).no_duplicates(),
        forall|y: A| s.remove(i).contains(y) <==> s.contains(y) && y != s[i],
{
    let t = s.remove(i);
    assert forall|a: int, b: int| 0 <= a < t.len() && 0 <= b < t.len() && a != b implies t[a]
        != t[b] by {
        let a0 = if a < i {
            a
        } else {
            a + 1
        };
        let b0 = if b < i {
            b
        } else {
            b + 1
        };
        assert(t[a] == s[a0] && t[b] == s[b0]);
    }
    assert forall|y: A| t.contains(y) <==> s.contains(y) && y != s[i] by {
        if t.contains(y) {
            let a = choose|a: int| 0 <= a < t.len() && t[a] == y;
            let a0 = if a < i {
                a
            } else {
                a + 1
            };
            assert(s[a0] == y);
        }
        if s.contains(y) && y != s[i] {
            let a0 = choose|a0: int| 0 <= a0 < s.len() && s[a0] == y;
            let a = if a0 < i {
                a0
            } else {
                a0 - 1
            };
            assert(t[a] == y);
        }
    }
}

impl Store {
    /// The keys of the committed kegs.
    pub closed spec fn kegs(&self) -> Seq<Seq<char>> {
        self.kegs.deep_view()
    }

    /// The keys of the kegs that are staged and not committed.
    pub closed spec fn staged(&self) -> Seq<Seq<char>> {
        self.staged.deep_view()
    }

    /// The installed records.
    pub closed spec fn records(&self) -> Seq<InstalledRecord> {
        self.records@
    }

    /// Whether a record names the keg `key`.
    pub open spec fn referenced(&self, key: Seq<char>) -> bool {
        named_by(self.records(), key)
    }

    /// Whether the store is sound: no keg is listed twice, no formula has
    /// two records, and every record names a committed keg.
    pub open spec fn wf(&self) -> bool {
        &&& self.kegs().no_duplicates()
        &&& self.staged().no_duplicates()
        &&& record_names(self.records()).no_duplicates()
        &&& forall|i: int|
            0 <= i < self.records().len() ==> self.kegs().contains(
                (#[trigger] self.records()[i]).store_key@,
            )
    }

    /// A store without kegs and records.
    pub fn new() -> (store: Store)
        ensures
            store.wf(),
            store.kegs() == Seq::<Seq<char>>::empty(),
            store.staged() == Seq::<Seq<char>>::empty(),
            store.records() == Seq::<InstalledRecord>::empty(),
    {
        let store = Store { kegs: Vec::new(), staged: Vec::new(), records: Vec::new() };
        assert(store.kegs.deep_view() =~= Seq::<Seq<char>>::empty());
        assert(store.staged.deep_view() =~= Seq::<Seq<char>>::empty());
        assert(record_names(store.records@) =~= Seq::<Seq<char>>::empty());
        store
    }

    /// Whether the keg `key` is committed.
    pub fn contains(&self, key: &str) -> (b: bool)
        ensures
            b == self.kegs().contains(key@),
    {
        find_key(&self.kegs, key) < self.kegs.len()
    }

    /// The keys of the committed kegs.
    pub fn list(&self) -> (keys: Vec<String>)
        ensures
            keys.deep_view() == self.kegs(),
    {
        let mut keys: Vec<String> = Vec::new();
        let mut i: usize = 0;
        while i < self.kegs.len()
            invariant
                i <= self.kegs.len(),
                keys.deep_view() == self.kegs.deep_view().take(i as int),
            decreases self.kegs.len() - i,
        {
            let ghost before = keys.deep_view();
            keys.push(self.kegs[i].clone());
            assert(keys.deep_view() =~= before.push(self.kegs@[i as int]@));
            assert(keys.deep_view() =~= self.kegs.deep_view().take(i + 1));
            i = i + 1;
        }
        assert(self.kegs.deep_view().take(i as int) =~= self.kegs.deep_view());
        keys
    }

    /// Begins the materialization of the keg `key`: unless it is committed
    /// already, it counts as staged from now on. Says whether there is
    /// anything to unpack.
    pub fn stage(&mut self, key: &str) -> (fresh: bool)
        requires
            old(self).wf(),
        ensures
            final(self).wf(),
            final(self).kegs() == old(self).kegs(),
            final(self).records() == old(self).records(),
            fresh == !old(self).kegs().contains(key@),
            final(self).staged() == if fresh && !old(self).staged().contains(key@) {
                old(self).staged().push(key@)
            } else {
                old(self).staged()
            },
    {
        if self.contains(key) {
            return false;
        }
        if find_key(&self.staged, key) == self.staged.len() {
            let ghost before = self.staged.deep_view();
            self.staged.push(String::from_str(key));
            proof {
                assert(self.staged.deep_view() =~= before.push(key@));
                lemma_push_distinct(before, key@);
            }
        }
        true
    }

    /// Commits the staged keg `key`: from now on it is a keg of the store.
    /// A keg that is not staged cannot be committed.
    pub fn commit(&mut self, key: &str) -> (res: Result<(), Error>)
        requires
            old(self).wf(),
        ensures
            final(self).wf(),
            final(self).records() == old(self).records(),
            old(self).staged().contains(key@) ==> res is Ok && final(self).staged() == old(
                self,
            ).staged().remove(key_position(old(self).staged(), key@)) && final(self).kegs() == (
            if old(self).kegs().contains(key@) {
                old(self).kegs()
            } else {
                old(self).kegs().push(key@)
            }),
            !old(self).staged().contains(key@) ==> res is Err && res->Err_0.is_store_corruption(
                "nothing is staged for "@ + key@,
            ) && final(self).staged() == old(self).staged() && final(self).kegs() == old(self).kegs(),
    {
        let at = find_key(&self.staged, key);
        if at == self.staged.len() {
            let mut message = String::from_str("nothing is staged for ");
            message.append(key);
            return Err(Error::StoreCorruption { message });
        }
        let ghost staged = self.staged.deep_view();
        let ghost kegs = self.kegs.deep_view();
        self.staged.remove(at);
        proof {
            assert(self.staged.deep_view() =~= staged.remove(at as int));
            lemma_remove_distinct(staged, at as int);
        }
        if find_key(&self.kegs, key) == self.kegs.len() {
            self.kegs.push(String::from_str(key));
            proof {
                assert(self.kegs.deep_view() =~= kegs.push(key@));
                lemma_push_distinct(kegs, key@);
            }
        }
        Ok(())
    }

    /// Forgets every staged keg, and returns their keys: what is staged
    /// when the store is opened is the remains of a failure.
    pub fn prune(&mut self) -> (pruned: Vec<String>)
        requires
            old(self).wf(),
        ensures
            final(self).wf(),
            pruned.deep_view() == old(self).staged(),
            final(self).staged() == Seq::<Seq<char>>::empty(),
            final(self).kegs() == old(self).kegs(),
            final(self).records() == old(self).records(),
    {
        let mut pruned: Vec<String> = Vec::new();
        core::mem::swap(&mut self.staged, &mut pruned);
        assert(self.staged.deep_view() =~= Seq::<Seq<char>>::empty());
        pruned
    }

    /// Whether a record names the keg `key`.
    pub fn is_referenced(&self, key: &str) -> (b: bool)
        ensures
            b == self.referenced(key@),
    {
        let wanted = chars_of(key);
        let mut i: usize = 0;
        while i < self.records.len()
            invariant
                i <= self.records.len(),
                wanted@ == key@,
                forall|j: int| 0 <= j < i ==> (#[trigger] self.records@[j]).store_key@ != key@,
            decreases self.records.len() - i,
        {
            let have = chars_of(self.records[i].store_key.as_str());
            if same_chars(&have, &wanted) {
                assert(self.records()[i as int].store_key@ == key@);
                return true;
            }
            i = i + 1;
        }
        false
    }

    /// Removes the keg `key`, unless a record names it. Says whether there
    /// was such a keg.
    pub fn remove(&mut self, key: &str) -> (res: Result<bool, Error>)
        requires
            old(self).wf(),
        ensures
            final(self).wf(),
            final(self).records() == old(self).records(),
            final(self).staged() == old(self).staged(),
            old(self).referenced(key@) ==> res is Err && res->Err_0.is_store_corruption(
                "keg "@ + key@ + " is still referenced"@,
            ) && final(self).kegs() == old(self).kegs(),
            !old(self).referenced(key@) ==> res == Ok::<bool, Error>(
                old(self).kegs().contains(key@),
            ),
            !old(self).referenced(key@) && old(self).kegs().contains(key@) ==> final(self).kegs()
                == old(self).kegs().remove(key_position(old(self).kegs(), key@)),
            !old(self).kegs().contains(key@) ==> final(self).kegs() == old(self).kegs(),
    {
        if self.is_referenced(key) {
            let mut message = String::from_str("keg ");
            message.append(key);
            message.append(" is still referenced");
            return Err(Error::StoreCorruption { message });
        }
        let at = find_key(&self.kegs, key);
        if at == self.kegs.len() {
            return Ok(false);
        }
        let ghost kegs = self.kegs.deep_view();
        self.kegs.remove(at);
        proof {
            assert(self.kegs.deep_view() =~= kegs.remove(at as int));
            lemma_remove_distinct(kegs, at as int);
        }
        Ok(true)
    }

    /// The record of the formula `name`, if it is installed.
    pub fn get(&self, name: &str) -> (found: Option<&InstalledRecord>)
        ensures
            found is Some <==> record_names(self.records()).contains(name@),
            found is Some ==> *found->0 == self.records()[key_position(
                record_names(self.records()),
                name@,
            )] && found->0.name@ == name@,
    {
        let at = find_record(&self.records, name);
        if at < self.records.len() {
            Some(&self.records[at])
        } else {
            None
        }
    }

    /// The installed records.
    pub fn list_records(&self) -> (records: &Vec<InstalledRecord>)
        ensures
            records@ == self.records(),
    {
        &self.records
    }

    /// Records that a formula is installed. A record of the same name is
    /// replaced, and returned. A record that names no committed keg is
    /// refused.
    pub fn insert(&mut self, record: InstalledRecord) -> (res: Result<
        Option<InstalledRecord>,
        Error,
    >)
        requires
            old(self).wf(),
        ensures
            final(self).wf(),
            final(self).kegs() == old(self).kegs(),
            final(self).staged() == old(self).staged(),
            !old(self).kegs().contains(record.store_key@) ==> res is Err
                && res->Err_0.is_store_corruption(
                "no keg "@ + record.store_key@ + " for "@ + record.name@,
            ) && final(self).records() == old(self).records(),
            old(self).kegs().contains(record.store_key@) ==> res is Ok,
            old(self).kegs().contains(record.store_key@) && record_names(
                old(self).records(),
            ).contains(record.name@) ==> res->Ok_0 == Some(
                old(self).records()[key_position(record_names(old(self).records()), record.name@)],
            ) && final(self).records() == old(self).records().update(
                key_position(record_names(old(self).records()), record.name@),
                record,
            ),
            old(self).kegs().contains(record.store_key@) && !record_names(
                old(self).records(),
            ).contains(record.name@) ==> res->Ok_0 is None && final(self).records() == old(
                self,
            ).records().push(record),
    {
        if !self.contains(record.store_key.as_str()) {
            let mut message = String::from_str("no keg ");
            message.append(record.store_key.as_str());
            message.append(" for ");
            message.append(record.name.as_str());
            return Err(Error::StoreCorruption { message });
        }
        let ghost before = self.records@;
        let ghost names = record_names(before);
        let at = find_record(&self.records, record.name.as_str());
        if at < self.records.len() {
            let replaced = self.records.remove(at);
            self.records.insert(at, record);
            proof {
                assert(self.records@ =~= before.update(at as int, record));
                assert(record_names(self.records@) =~= names);
                assert forall|i: int| 0 <= i < self.records@.len() implies self.kegs().contains(
                    (#[trigger] self.records@[i]).store_key@,
                ) by {
                    if i != at {
                        assert(self.records@[i] == before[i]);
                    }
                }
            }
            Ok(Some(replaced))
        } else {
            self.records.push(record);
            proof {
                assert(record_names(self.records@) =~= names.push(record.name@));
                lemma_push_distinct(names, record.name@);
                assert forall|i: int| 0 <= i < self.records@.len() implies self.kegs().contains(
                    (#[trigger] self.records@[i]).store_key@,
                ) by {
                    if i < before.len() {
                        assert(self.records@[i] == before[i]);
                    }
                }
            }
            Ok(None)
        }
    }

    /// Forgets that the formula `name` is installed, and returns its record.
    pub fn remove_record(&mut self, name: &str) -> (removed: Option<InstalledRecord>)
        requires
            old(self).wf(),
        ensures
            final(self).wf(),
            final(self).kegs() == old(self).kegs(),
            final(self).staged() == old(self).staged(),
            removed is Some <==> record_names(old(self).records()).contains(name@),
            removed is Some ==> removed->0 == old(self).records()[key_position(
                record_names(old(self).records()),
                name@,
            )] && final(self).records() == old(self).records().remove(
                key_position(record_names(old(self).records()), name@),
            ),
            removed is None ==> final(self).records() == old(self).records(),
    {
        let at = find_record(&self.records, name);
        if at == self.records.len() {
            return None;
        }
        let ghost before = self.records@;
        let ghost names = record_names(before);
        let removed = self.records.remove(at);
        proof {
            assert(record_names(self.records@) =~= names.remove(at as int));
            lemma_remove_distinct(names, at as int);
            assert forall|i: int| 0 <= i < self.records@.len() implies self.kegs().contains(
                (#[trigger] self.records@[i]).store_key@,
            ) by {
                let i0 = if i < at {
                    i
                } else {
                    i + 1
                };
                assert(self.records@[i] == before[i0]);
            }
        }
        Some(removed)
    }

    /// Marks the formula `name` as asked for, or as not asked for. Says
    /// whether it is installed.
    pub fn update_explicit(&mut self, name: &str, explicit: bool) -> (found: bool)
        requires
            old(self).wf(),
        ensures
            final(self).wf(),
            final(self).kegs() == old(self).kegs(),
            final(self).staged() == old(self).staged(),
            found == record_names(old(self).records()).contains(name@),
            !found ==> final(self).records() == old(self).records(),
            found ==> final(self).records() == old(self).records().update(
                key_position(record_names(old(self).records()), name@),
                (InstalledRecord {
                    explicit,
                    ..old(self).records()[key_position(record_names(old(self).records()), name@)]
                }),
            ),
    {
        let at = find_record(&self.records, name);
        if at == self.records.len() {
            return false;
        }
        let ghost before = self.records@;
        let ghost names = record_names(before);
        let mut record = self.records.remove(at);
        record.explicit = explicit;
        self.records.insert(at, record);
        proof {
            assert(self.records@ =~= before.update(at as int, record));
            assert(record_names(self.records@) =~= names);
            assert forall|i: int| 0 <= i < self.records@.len() implies self.kegs().contains(
                (#[trigger] self.records@[i]).store_key@,
            ) by {
                if i != at {
                    assert(self.records@[i] == before[i]);
                } else {
                    assert(before[at as int].store_key == record.store_key);
                }
            }
        }
        true
    }
}

/// Every installed record of a sound store names a keg of the store.
pub proof fn lemma_referential_integrity(store: Store, i: int)
    requires
        store.wf(),
        0 <= i < store.records().len(),
    ensures
        store.kegs().contains(store.records()[i].store_key@),
{
}

/// Whether the record at `i` needs the record at `j` at run time: it lists
/// its name.
pub open spec fn needs(records: Seq<InstalledRecord>, i: int, j: int) -> bool {
    0 <= i < records.len() && 0 <= j < records.len() && records[i].requested_deps.deep_view().contains(
        records[j].name@,
    )
}

/// Whether needs at run time lead from a record that was asked for to the
/// record at `j` in `d` steps.
pub open spec fn live_at(records: Seq<InstalledRecord>, j: int, d: nat) -> bool
    decreases d,
{
    if d == 0 {
        0 <= j < records.len() && records[j].explicit
    } else {
        exists|i: int| live_at(records, i, (d - 1) as nat) && #[trigger] needs(records, i, j)
    }
}

/// Whether the record at `j` is in use: it was asked for, or a record in
/// use needs it at run time.
pub open spec fn live(records: Seq<InstalledRecord>, j: int) -> bool {
    exists|d: nat| live_at(records, j, d)
}

/// What a record in use needs is in use.
pub proof fn lemma_live_step(records: Seq<InstalledRecord>, i: int, j: int, d: nat)
    requires
        live_at(records, i, d),
        needs(records, i, j),
    ensures
        live_at(records, j, (d + 1) as nat),
        live(records, j),
{
    let next = (d + 1) as nat;
    assert(live_at(records, i, (next - 1) as nat));
}

/// A search for the records in use: `order` lists the places of the
/// records found, and `position` says for each place where in `order` it
/// stands, or the number of records where it was not found.
struct Reach {
    order: Vec<usize>,
    position: Vec<usize>,
}

impl Reach {
    /// Whether `order` and `position` describe the same set of places.
    #[verifier::opaque]
    spec fn indexed(&self, n: int) -> bool {
        &&& self.position.len() == n
        &&& self.order.len() <= n
        &&& forall|x: int|
            0 <= x < self.order.len() ==> (#[trigger] self.order[x]) < n
                && self.position[self.order[x] as int] == x
        &&& forall|g: int|
            0 <= g < n && (#[trigger] self.position[g]) != n ==> self.position[g]
                < self.order.len() && self.order[self.position[g] as int] == g
    }

    /// Whether only records in use were found, and every record that was
    /// asked for.
    #[verifier::opaque]
    spec fn sound(&self, records: Seq<InstalledRecord>) -> bool {
        &&& forall|g: int|
            0 <= g < records.len() && (#[trigger] self.position[g]) != records.len() ==> live(
                records,
                g,
            )
        &&& forall|g: int|
            0 <= g < records.len() && (#[trigger] records[g]).explicit ==> self.position[g]
                != records.len()
    }

    /// Whether all that the record at `u` needs by one of its first `upto`
    /// names was found.
    #[verifier::opaque]
    spec fn followed(&self, records: Seq<InstalledRecord>, u: int, upto: int) -> bool {
        forall|t: int, j: int|
            0 <= t < upto && 0 <= j < records.len() && (#[trigger] records[j]).name@
                == #[trigger] records[u].requested_deps.deep_view()[t] ==> self.position[j]
                != records.len()
    }

    /// Whether all that the first `k` records found need was found.
    #[verifier::opaque]
    spec fn closed(&self, records: Seq<InstalledRecord>, k: int) -> bool {
        forall|x: int|
            0 <= x < k ==> #[trigger] self.followed(
                records,
                self.order[x] as int,
                records[self.order[x] as int].requested_deps.len() as int,
            )
    }

    /// Whether `self` is `before` with the place `g` added.
    spec fn entered(&self, before: Reach, g: int) -> bool {
        &&& self.order@ == before.order@.push(g as usize)
        &&& self.position@ == before.position@.update(g, before.order.len())
    }
}

/// Adds the place `g`, which was not found before.
fn reach_enter(r: &mut Reach, g: usize, Ghost(n): Ghost<int>)
    requires
        old(r).indexed(n),
        g < n,
        old(r).position.len() == n,
        old(r).position[g as int] == n,
    ensures
        final(r).entered(*old(r), g as int),
        final(r).indexed(n),
        final(r).position.len() == n,
        final(r).order.len() <= n,
        old(r).order.len() < n,
{
    reveal(Reach::indexed);
    proof {
        lemma_room_left(r.order@, r.position@, n, g as int);
    }
    let place = r.order.len();
    r.position.set(g, place);
    r.order.push(g);
    proof {
        assert forall|x: int| 0 <= x < r.order.len() implies (#[trigger] r.order[x]) < n
            && r.position[r.order[x] as int] == x by {
            if x < place {
                assert(old(r).order[x] < n && old(r).position[old(r).order[x] as int] == x);
            }
        }
        assert forall|h: int| 0 <= h < n && (#[trigger] r.position[h]) != n implies r.position[h]
            < r.order.len() && r.order[r.position[h] as int] == h by {
            if h != g {
                assert(old(r).position[h] != n);
            }
        }
    }
}

/// Adding a record in use keeps the search sound, and what was followed
/// stays followed.
proof fn lemma_reach_kept(
    before: Reach,
    after: Reach,
    records: Seq<InstalledRecord>,
    g: int,
    k: int,
    u: int,
    upto: int,
)
    requires
        before.indexed(records.len() as int),
        before.sound(records),
        before.closed(records, k),
        before.followed(records, u, upto),
        0 <= k <= before.order.len(),
        0 <= g < records.len(),
        before.order.len() < records.len(),
        live(records, g),
        after.entered(before, g),
    ensures
        after.sound(records),
        after.closed(records, k),
        after.followed(records, u, upto),
{
    let n = records.len();
    reveal(Reach::indexed);
    reveal(Reach::sound);
    reveal(Reach::followed);
    reveal(Reach::closed);
    assert forall|h: int| 0 <= h < n && (#[trigger] after.position[h]) != n implies live(
        records,
        h,
    ) by {
        if h != g {
            assert(before.position[h] != n);
        }
    }
    assert forall|h: int| 0 <= h < n && (#[trigger] records[h]).explicit implies after.position[h]
        != n by {
        assert(before.position[h] != n);
    }
    assert forall|x: int| 0 <= x < k implies #[trigger] after.followed(
        records,
        after.order[x] as int,
        records[after.order[x] as int].requested_deps.len() as int,
    ) by {
        assert(after.order[x] == before.order[x]);
        assert(before.followed(
            records,
            before.order[x] as int,
            records[before.order[x] as int].requested_deps.len() as int,
        ));
    }
}

/// A search that followed every need of every record found holds every
/// record in use.
proof fn lemma_reach_complete(r: Reach, records: Seq<InstalledRecord>, j: int, d: nat)
    requires
        r.indexed(records.len() as int),
        r.sound(records),
        r.closed(records, r.order.len() as int),
        live_at(records, j, d),
    ensures
        0 <= j < records.len(),
        r.position[j] != records.len(),
    decreases d,
{
    reveal(Reach::indexed);
    reveal(Reach::sound);
    if d > 0 {
        let i = choose|i: int| live_at(records, i, (d - 1) as nat) && #[trigger] needs(records, i, j);
        lemma_reach_complete(r, records, i, (d - 1) as nat);
        let x = r.position[i] as int;
        assert(r.order[x] == i);
        reveal(Reach::closed);
        assert(r.followed(records, r.order[x] as int, records[i].requested_deps.len() as int));
        reveal(Reach::followed);
        let deps = records[i].requested_deps.deep_view();
        let t = choose|t: int| 0 <= t < deps.len() && deps[t] == records[j].name@;
        assert(records[j].name@ == records[i].requested_deps.deep_view()[t]);
    }
}

/// For every record whether it is in use.
pub fn live_records(records: &Vec<InstalledRecord>) -> (flags: Vec<bool>)
    requires
        record_names(records@).no_duplicates(),
    ensures
        flags.len() == records.len(),
        forall|j: int| 0 <= j < records.len() ==> flags[j] == live(records@, j),
{
    let n = records.len();
    let mut position: Vec<usize> = Vec::new();
    let mut g: usize = 0;
    while g < n
        invariant
            g <= n,
            position.len() == g,
            forall|h: int| 0 <= h < g ==> position[h] == n,
        decreases n - g,
    {
        position.push(n);
        g = g + 1;
    }
    let mut r = Reach { order: Vec::new(), position };
    proof {
        reveal(Reach::indexed);
    }
    // The records that were asked for.
    let mut g: usize = 0;
    while g < n
        invariant
            g <= n,
            n == records.len(),
            r.indexed(n as int),
            r.position.len() == n,
            r.order.len() <= n,
            forall|h: int| 0 <= h < n && (#[trigger] r.position[h]) != n ==> live(records@, h),
            forall|h: int| 0 <= h < g && (#[trigger] records@[h]).explicit ==> r.position[h] != n,
        decreases n - g,
    {
        if records[g].explicit && r.position[g] == n {
            let ghost before = r;
            reach_enter(&mut r, g, Ghost(n as int));
            proof {
                assert(live_at(records@, g as int, 0));
                assert forall|h: int| 0 <= h < n && (#[trigger] r.position[h]) != n implies live(
                    records@,
                    h,
                ) by {
                    if h != g {
                        assert(before.position[h] != n);
                    }
                }
                assert forall|h: int|
                    0 <= h < g + 1 && (#[trigger] records@[h]).explicit implies r.position[h]
                    != n by {
                    if h < g {
                        assert(before.position[h] != n);
                        reveal(Reach::indexed);
                    }
                }
            }
        }
        g = g + 1;
    }
    proof {
        assert(r.sound(records@)) by {
            reveal(Reach::sound);
        }
        assert(r.closed(records@, 0)) by {
            reveal(Reach::closed);
        }
    }
    // What they need, and what that needs.
    let mut k: usize = 0;
    while k < r.order.len()
        invariant
            n == records.len(),
            r.indexed(n as int),
            r.position.len() == n,
            r.order.len() <= n,
            k <= r.order.len(),
            r.sound(records@),
            r.closed(records@, k as int),
            record_names(records@).no_duplicates(),
        decreases n - k,
    {
        proof {
            reveal(Reach::indexed);
        }
        let u = r.order[k];
        let deps = &records[u].requested_deps;
        let mut t: usize = 0;
        proof {
            assert(r.followed(records@, u as int, 0)) by {
                reveal(Reach::followed);
            }
            assert(live(records@, u as int)) by {
                reveal(Reach::sound);
            }
        }
        while t < deps.len()
            invariant
                n == records.len(),
                u < n,
                deps == records@[u as int].requested_deps,
                t <= deps.len(),
                r.indexed(n as int),
                r.position.len() == n,
                r.order.len() <= n,
                k < r.order.len(),
                r.order[k as int] == u,
                r.sound(records@),
                r.closed(records@, k as int),
                r.followed(records@, u as int, t as int),
                live(records@, u as int),
                record_names(records@).no_duplicates(),
            decreases deps.len() - t,
        {
            let j = find_record(records, deps[t].as_str());
            assert(deps.deep_view()[t as int] == deps@[t as int]@);
            if j < n && r.position[j] == n {
                let ghost before = r;
                reach_enter(&mut r, j, Ghost(n as int));
                proof {
                    assert(needs(records@, u as int, j as int));
                    let d = choose|d: nat| live_at(records@, u as int, d);
                    lemma_live_step(records@, u as int, j as int, d);
                    lemma_reach_kept(before, r, records@, j as int, k as int, u as int, t as int);
                }
            }
            proof {
                assert(r.followed(records@, u as int, t + 1)) by {
                    reveal(Reach::followed);
                    assert forall|t0: int, j0: int|
                        0 <= t0 < t + 1 && 0 <= j0 < n && (#[trigger] records@[j0]).name@
                            == #[trigger] records@[u as int].requested_deps.deep_view()[t0] implies r.position[j0]
                        != n by {
                        if t0 == t {
                            let names = record_names(records@);
                            assert(names[j0] == records@[j0].name@);
                            assert(names.contains(deps@[t as int]@));
                            assert(names[j as int] == records@[j as int].name@);
                            assert(j0 == j);
                        }
                    }
                }
            }
            t = t + 1;
        }
        proof {
            assert(r.closed(records@, k + 1)) by {
                reveal(Reach::closed);
            }
        }
        k = k + 1;
    }
    let mut flags: Vec<bool> = Vec::new();
    let mut j: usize = 0;
    while j < n
        invariant
            j <= n,
            n == records.len(),
            flags.len() == j,
            r.indexed(n as int),
            r.position.len() == n,
            r.sound(records@),
            r.closed(records@, r.order.len() as int),
            forall|h: int| 0 <= h < j ==> flags[h] == live(records@, h),
        decreases n - j,
    {
        let found = r.position[j] != n;
        proof {
            if found {
                reveal(Reach::sound);
            }
            if live(records@, j as int) {
                let d = choose|d: nat| live_at(records@, j as int, d);
                lemma_reach_complete(r, records@, j as int, d);
            }
        }
        flags.push(found);
        j = j + 1;
    }
    flags
}

/// Those of the first `upto` records that are in use, in order.
pub open spec fn keep_live(records: Seq<InstalledRecord>, upto: int) -> Seq<InstalledRecord>
    decreases upto,
{
    if upto <= 0 {
        Seq::empty()
    } else if live(records, upto - 1) {
        keep_live(records, upto - 1).push(records[upto - 1])
    } else {
        keep_live(records, upto - 1)
    }
}

/// The names of those of the first `upto` records that are not in use, in
/// order.
pub open spec fn drop_names(records: Seq<InstalledRecord>, upto: int) -> Seq<Seq<char>>
    decreases upto,
{
    if upto <= 0 {
        Seq::empty()
    } else if live(records, upto - 1) {
        drop_names(records, upto - 1)
    } else {
        drop_names(records, upto - 1).push(records[upto - 1].name@)
    }
}

/// Whether one of `records` names the keg `key`.
pub open spec fn named_by(records: Seq<InstalledRecord>, key: Seq<char>) -> bool {
    exists|i: int| 0 <= i < records.len() && (#[trigger] records[i]).store_key@ == key
}

/// Those of the first `upto` of `kegs` that one of `records` names, in
/// order.
pub open spec fn keep_named(kegs: Seq<Seq<char>>, records: Seq<InstalledRecord>, upto: int) -> Seq<
    Seq<char>,
>
    decreases upto,
{
    if upto <= 0 {
        Seq::empty()
    } else if named_by(records, kegs[upto - 1]) {
        keep_named(kegs, records, upto - 1).push(kegs[upto - 1])
    } else {
        keep_named(kegs, records, upto - 1)
    }
}

/// Those of the first `upto` of `kegs` that none of `records` names, in
/// order.
pub open spec fn drop_unnamed(kegs: Seq<Seq<char>>, records: Seq<InstalledRecord>, upto: int) -> Seq<
    Seq<char>,
>
    decreases upto,
{
    if upto <= 0 {
        Seq::empty()
    } else if named_by(records, kegs[upto - 1]) {
        drop_unnamed(kegs, records, upto - 1)
    } else {
        drop_unnamed(kegs, records, upto - 1).push(kegs[upto - 1])
    }
}

/// What a collection of garbage did.
#[derive(Debug, PartialEq, Eq)]
pub struct GcReport {
    /// The names of the formulas whose records were dropped, because
    /// nothing that was asked for needs them.
    pub dropped: Vec<String>,
    /// The keys of the kegs that were removed.
    pub removed: Vec<String>,
    /// The keys of the staged kegs that were forgotten.
    pub pruned: Vec<String>,
}

impl Store {
    /// Collects garbage. The records of the formulas that are not in use
    /// are dropped: those that were not asked for and that no formula in
    /// use needs at run time. The kegs that no remaining record names are
    /// removed, and what is staged is forgotten. The report says what the
    /// caller has to unlink and to delete.
    pub fn gc(&mut self) -> (report: GcReport)
        requires
            old(self).wf(),
        ensures
            final(self).wf(),
            final(self).records() == keep_live(
                old(self).records(),
                old(self).records().len() as int,
            ),
            report.dropped.deep_view() == drop_names(
                old(self).records(),
                old(self).records().len() as int,
            ),
            report.pruned.deep_view() == old(self).staged(),
            final(self).staged() == Seq::<Seq<char>>::empty(),
            final(self).kegs() == keep_named(
                old(self).kegs(),
                final(self).records(),
                old(self).kegs().len() as int,
            ),
            report.removed.deep_view() == drop_unnamed(
                old(self).kegs(),
                final(self).records(),
                old(self).kegs().len() as int,
            ),
            forall|j: int|
                0 <= j < old(self).records().len() && live(old(self).records(), j)
                    ==> final(self).kegs().contains(
                    (#[trigger] old(self).records()[j]).store_key@,
                ) && final(self).records().contains(old(self).records()[j]),
    {
        let ghost before = self.records@;
        let ghost kegs_before = self.kegs.deep_view();
        let pruned = self.prune();
        let flags = live_records(&self.records);
        let n = self.records.len();
        let mut all: Vec<InstalledRecord> = Vec::new();
        core::mem::swap(&mut self.records, &mut all);
        let mut dropped: Vec<String> = Vec::new();
        let mut i: usize = 0;
        assert(dropped.deep_view() =~= Seq::<Seq<char>>::empty());
        assert(all@.skip(0) =~= all@);
        while i < n
            invariant
                i <= n,
                n == before.len(),
                flags.len() == n,
                forall|j: int| 0 <= j < n ==> flags[j] == live(before, j),
                all@ == before.skip(i as int),
                self.records@ == keep_live(before, i as int),
                dropped.deep_view() == drop_names(before, i as int),
                self.kegs.deep_view() == kegs_before,
                self.staged.deep_view() == Seq::<Seq<char>>::empty(),
            decreases n - i,
        {
            let ghost names = dropped.deep_view();
            let record = all.remove(0);
            proof {
                assert(record == before[i as int]);
                assert(all@ =~= before.skip(i + 1));
            }
            if flags[i] {
                self.records.push(record);
            } else {
                dropped.push(record.name);
                assert(dropped.deep_view() =~= names.push(before[i as int].name@));
            }
            i = i + 1;
        }
        proof {
            lemma_kept_distinct(before, n as int);
        }
        // The kegs that a remaining record names stay.
        let mut kegs: Vec<String> = Vec::new();
        core::mem::swap(&mut self.kegs, &mut kegs);
        let mut removed: Vec<String> = Vec::new();
        let mut k: usize = 0;
        assert(self.kegs.deep_view() =~= Seq::<Seq<char>>::empty());
        assert(removed.deep_view() =~= Seq::<Seq<char>>::empty());
        while k < kegs.len()
            invariant
                k <= kegs.len(),
                kegs.deep_view() == kegs_before,
                kegs_before.no_duplicates(),
                self.records@ == keep_live(before, before.len() as int),
                self.staged.deep_view() == Seq::<Seq<char>>::empty(),
                self.kegs.deep_view().no_duplicates(),
                self.kegs.deep_view() == keep_named(kegs_before, self.records@, k as int),
                removed.deep_view() == drop_unnamed(kegs_before, self.records@, k as int),
                forall|key: Seq<char>| #[trigger]
                    self.kegs.deep_view().contains(key) <==> kegs_before.take(k as int).contains(
                        key,
                    ) && self.referenced(key),
                forall|key: Seq<char>| #[trigger]
                    removed.deep_view().contains(key) <==> kegs_before.take(k as int).contains(key)
                        && !self.referenced(key),
            decreases kegs.len() - k,
        {
            let ghost have = self.kegs.deep_view();
            let ghost gone = removed.deep_view();
            let ghost key = kegs_before[k as int];
            assert(kegs@[k as int]@ == key);
            proof {
                assert(!kegs_before.take(k as int).contains(key)) by {
                    if kegs_before.take(k as int).contains(key) {
                        let x = choose|x: int|
                            0 <= x < k && kegs_before.take(k as int)[x] == key;
                        assert(kegs_before[x] == kegs_before[k as int]);
                    }
                }
                assert(kegs_before.take(k + 1) =~= kegs_before.take(k as int).push(key));
                lemma_push_contains(kegs_before.take(k as int), key);
            }
            let ghost earlier = *self;
            let ghost seen = kegs_before.take(k as int);
            let ghost next = kegs_before.take(k + 1);
            assert(self.records() == self.records@);
            if self.is_referenced(kegs[k].as_str()) {
                self.kegs.push(kegs[k].clone());
                proof {
                    assert(self.kegs.deep_view() =~= have.push(key));
                    lemma_push_distinct(have, key);
                    assert(have =~= earlier.kegs.deep_view());
                    assert forall|other: Seq<char>| #[trigger]
                        self.kegs.deep_view().contains(other) <==> next.contains(other)
                            && self.referenced(other) by {
                        assert(self.records() == earlier.records());
                        assert(self.referenced(other) == earlier.referenced(other));
                        assert(have.contains(other) <==> seen.contains(other) && earlier.referenced(
                            other,
                        ));
                        assert(next.contains(other) <==> seen.contains(other) || other == key);
                        assert(have.push(key).contains(other) <==> have.contains(other) || other
                            == key);
                    }
                    assert forall|other: Seq<char>| #[trigger]
                        removed.deep_view().contains(other) <==> next.contains(other)
                            && !self.referenced(other) by {
                        assert(self.records() == earlier.records());
                        assert(self.referenced(other) == earlier.referenced(other));
                        assert(gone.contains(other) <==> seen.contains(other)
                            && !earlier.referenced(other));
                        assert(next.contains(other) <==> seen.contains(other) || other == key);
                    }
                }
            } else {
                removed.push(kegs[k].clone());
                proof {
                    assert(removed.deep_view() =~= gone.push(key));
                    lemma_push_contains(gone, key);
                    assert forall|other: Seq<char>| #[trigger]
                        self.kegs.deep_view().contains(other) <==> next.contains(other)
                            && self.referenced(other) by {
                        assert(have.contains(other) <==> seen.contains(other) && earlier.referenced(
                            other,
                        ));
                        assert(next.contains(other) <==> seen.contains(other) || other == key);
                    }
                    assert forall|other: Seq<char>| #[trigger]
                        removed.deep_view().contains(other) <==> next.contains(other)
                            && !self.referenced(other) by {
                        assert(gone.contains(other) <==> seen.contains(other)
                            && !earlier.referenced(other));
                        assert(next.contains(other) <==> seen.contains(other) || other == key);
                        assert(gone.push(key).contains(other) <==> gone.contains(other) || other
                            == key);
                    }
                }
            }
            k = k + 1;
        }
        proof {
            assert(kegs_before.take(k as int) =~= kegs_before);
            assert forall|x: int| 0 <= x < self.records@.len() implies self.kegs.deep_view().contains(
                (#[trigger] self.records@[x]).store_key@,
            ) by {
                let j = lemma_kept_is_live(before, n as int, x);
                assert(kegs_before.contains(before[j].store_key@));
                assert(self.records()[x].store_key@ == self.records@[x].store_key@);
                assert(self.referenced(self.records@[x].store_key@));
            }
            assert forall|j: int| 0 <= j < n && live(before, j) implies self.kegs.deep_view().contains(
                (#[trigger] before[j]).store_key@,
            ) && self.records@.contains(before[j]) by {
                let x = lemma_live_is_kept(before, n as int, j);
                assert(kegs_before.contains(before[j].store_key@));
                assert(self.records()[x].store_key@ == self.records@[x].store_key@);
                assert(self.referenced(self.records@[x].store_key@));
            }
        }
        GcReport { dropped, removed, pruned }
    }
}

/// Each record that is kept is a record in use.
pub proof fn lemma_kept_is_live(records: Seq<InstalledRecord>, upto: int, x: int) -> (j: int)
    requires
        0 <= upto <= records.len(),
        0 <= x < keep_live(records, upto).len(),
    ensures
        0 <= j < upto,
        live(records, j),
        records[j] == keep_live(records, upto)[x],
    decreases upto,
{
    let head = keep_live(records, upto - 1);
    if x < head.len() {
        lemma_kept_is_live(records, upto - 1, x)
    } else {
        upto - 1
    }
}

/// Each record in use is kept.
pub proof fn lemma_live_is_kept(records: Seq<InstalledRecord>, upto: int, j: int) -> (x: int)
    requires
        0 <= j < upto <= records.len(),
        live(records, j),
    ensures
        0 <= x < keep_live(records, upto).len(),
        keep_live(records, upto)[x] == records[j],
    decreases upto,
{
    if j < upto - 1 {
        lemma_live_is_kept(records, upto - 1, j)
    } else {
        keep_live(records, upto).len() - 1
    }
}

/// The records that are kept have distinct names where all records have.
pub proof fn lemma_kept_distinct(records: Seq<InstalledRecord>, upto: int)
    requires
        0 <= upto <= records.len(),
        record_names(records).no_duplicates(),
    ensures
        record_names(keep_live(records, upto)).no_duplicates(),
    decreases upto,
{
    if upto > 0 {
        lemma_kept_distinct(records, upto - 1);
        let head = keep_live(records, upto - 1);
        let names = record_names(records);
        if live(records, upto - 1) {
            let last = records[upto - 1].name@;
            assert(record_names(keep_live(records, upto)) =~= record_names(head).push(last));
            if record_names(head).contains(last) {
                let x = choose|x: int| 0 <= x < head.len() && record_names(head)[x] == last;
                let j = lemma_kept_is_live(records, upto - 1, x);
                assert(names[j] == names[upto - 1]);
            }
            lemma_push_distinct(record_names(head), last);
        }
    } else {
        assert(record_names(keep_live(records, upto)) =~= Seq::<Seq<char>>::empty());
    }
}

/// The first `upto` of `keys`, each at its first place only.
pub open spec fn distinct_keys(keys: Seq<Seq<char>>, upto: int) -> Seq<Seq<char>>
    decreases upto,
{
    if upto <= 0 {
        Seq::empty()
    } else if distinct_keys(keys, upto - 1).contains(keys[upto - 1]) {
        distinct_keys(keys, upto - 1)
    } else {
        distinct_keys(keys, upto - 1).push(keys[upto - 1])
    }
}

/// Those of the first `upto` of `staged` that are none of `kegs`, each at
/// its first place only.
pub open spec fn staged_keys(staged: Seq<Seq<char>>, kegs: Seq<Seq<char>>, upto: int) -> Seq<
    Seq<char>,
>
    decreases upto,
{
    if upto <= 0 {
        Seq::empty()
    } else if kegs.contains(staged[upto - 1]) || staged_keys(staged, kegs, upto - 1).contains(
        staged[upto - 1],
    ) {
        staged_keys(staged, kegs, upto - 1)
    } else {
        staged_keys(staged, kegs, upto - 1).push(staged[upto - 1])
    }
}

/// Whether the record at `i` cannot be taken into a store with the kegs
/// `kegs`: an earlier record has its name, or no keg has its key.
pub open spec fn defect(records: Seq<InstalledRecord>, kegs: Seq<Seq<char>>, i: int) -> bool {
    record_names(records).take(i).contains(records[i].name@) || !kegs.contains(
        records[i].store_key@,
    )
}

/// What is said of the record at `i` that cannot be taken in.
pub open spec fn defect_text(records: Seq<InstalledRecord>, kegs: Seq<Seq<char>>, i: int) -> Seq<
    char,
> {
    if !kegs.contains(records[i].store_key@) {
        "no keg "@ + records[i].store_key@ + " for "@ + records[i].name@
    } else {
        "formula recorded twice: "@ + records[i].name@
    }
}

impl Store {
    /// The store that holds the kegs `kegs`, the staged kegs `staged` and
    /// the records `records`, as they were found on disk. A keg that is
    /// listed twice counts once, and what is staged beside its committed
    /// keg does not count. The first record that has the name of an earlier
    /// one, or that names no keg, makes the store corrupt.
    pub fn open(kegs: Vec<String>, staged: Vec<String>, records: Vec<InstalledRecord>) -> (res:
        Result<Store, Error>)
        ensures
            res is Ok <==> forall|i: int|
                0 <= i < records.len() ==> !#[trigger] defect(records@, kegs.deep_view(), i),
            res is Ok ==> res->Ok_0.kegs() == distinct_keys(
                kegs.deep_view(),
                kegs.len() as int,
            ) && res->Ok_0.staged() == staged_keys(
                staged.deep_view(),
                kegs.deep_view(),
                staged.len() as int,
            ),
            res is Ok ==> res->Ok_0.wf() && res->Ok_0.records() == records@ && (forall|
                key: Seq<char>,
            | #[trigger]
                res->Ok_0.kegs().contains(key) <==> kegs.deep_view().contains(key)) && (forall|
                key: Seq<char>,
            | #[trigger]
                res->Ok_0.staged().contains(key) <==> staged.deep_view().contains(key)
                    && !kegs.deep_view().contains(key)),
            res is Err ==> exists|i: int|
                0 <= i < records.len() && #[trigger] defect(records@, kegs.deep_view(), i)
                    && res->Err_0.is_store_corruption(defect_text(records@, kegs.deep_view(), i))
                    && forall|j: int| 0 <= j < i ==> !#[trigger] defect(records@, kegs.deep_view(), j),
    {
        let ghost all_kegs = kegs.deep_view();
        let ghost all_staged = staged.deep_view();
        let ghost all = records@;
        let mut store = Store::new();
        let mut k: usize = 0;
        assert(all_kegs.take(0) =~= Seq::<Seq<char>>::empty());
        while k < kegs.len()
            invariant
                k <= kegs.len(),
                all_kegs == kegs.deep_view(),
                store.wf(),
                store.records() == Seq::<InstalledRecord>::empty(),
                store.staged() == Seq::<Seq<char>>::empty(),
                store.kegs() == distinct_keys(all_kegs, k as int),
                forall|key: Seq<char>| #[trigger]
                    store.kegs().contains(key) <==> all_kegs.take(k as int).contains(key),
            decreases kegs.len() - k,
        {
            let ghost have = store.kegs();
            let ghost key = all_kegs[k as int];
            assert(kegs@[k as int]@ == key);
            let fresh = store.stage(kegs[k].as_str());
            if fresh {
                assert(store.staged() =~= seq![key]);
                assert(store.staged().contains(key)) by {
                    assert(store.staged()[0] == key);
                }
                assert(key_position(store.staged(), key) == 0);
                let _ = store.commit(kegs[k].as_str());
                assert(store.staged() =~= Seq::<Seq<char>>::empty());
                assert(store.kegs() == have.push(key));
            } else {
                assert(store.kegs() == have);
                assert(have.contains(key));
            }
            proof {
                let seen = all_kegs.take(k as int);
                let next = all_kegs.take(k + 1);
                assert(next =~= seen.push(key));
                lemma_push_contains(seen, key);
                lemma_push_contains(have, key);
                assert forall|other: Seq<char>| #[trigger]
                    store.kegs().contains(other) <==> next.contains(other) by {
                    assert(have.contains(other) <==> seen.contains(other));
                    assert(next.contains(other) <==> seen.contains(other) || other == key);
                    assert(have.push(key).contains(other) <==> have.contains(other) || other
                        == key);
                }
            }
            k = k + 1;
        }
        assert(all_kegs.take(k as int) =~= all_kegs);
        let mut t: usize = 0;
        assert(all_staged.take(0) =~= Seq::<Seq<char>>::empty());
        while t < staged.len()
            invariant
                t <= staged.len(),
                all_staged == staged.deep_view(),
                store.wf(),
                store.records() == Seq::<InstalledRecord>::empty(),
                store.kegs() == distinct_keys(all_kegs, kegs.len() as int),
                all_kegs == kegs.deep_view(),
                store.staged() == staged_keys(all_staged, all_kegs, t as int),
                forall|key: Seq<char>| #[trigger]
                    store.kegs().contains(key) <==> all_kegs.contains(key),
                forall|key: Seq<char>| #[trigger]
                    store.staged().contains(key) <==> all_staged.take(t as int).contains(key)
                        && !all_kegs.contains(key),
            decreases staged.len() - t,
        {
            let ghost have = store.staged();
            let ghost key = all_staged[t as int];
            assert(staged@[t as int]@ == key);
            let ghost kegs_now = store.kegs();
            let fresh = store.stage(staged[t].as_str());
            proof {
                let seen = all_staged.take(t as int);
                let next = all_staged.take(t + 1);
                assert(next =~= seen.push(key));
                lemma_push_contains(seen, key);
                lemma_push_contains(have, key);
                assert(store.kegs() == kegs_now);
                assert(fresh == !all_kegs.contains(key)) by {
                    assert(kegs_now.contains(key) <==> all_kegs.contains(key));
                }
                assert forall|other: Seq<char>| #[trigger]
                    store.staged().contains(other) <==> next.contains(other) && !all_kegs.contains(
                        other,
                    ) by {
                    assert(have.contains(other) <==> seen.contains(other) && !all_kegs.contains(
                        other,
                    ));
                    assert(next.contains(other) <==> seen.contains(other) || other == key);
                    assert(have.push(key).contains(other) <==> have.contains(other) || other
                        == key);
                }
                assert forall|other: Seq<char>| #[trigger]
                    store.kegs().contains(other) <==> all_kegs.contains(other) by {
                    assert(kegs_now.contains(other) <==> all_kegs.contains(other));
                }
            }
            t = t + 1;
        }
        assert(all_staged.take(t as int) =~= all_staged);
        let n = records.len();
        let mut rest = records;
        let mut i: usize = 0;
        assert(rest@.skip(0) =~= rest@);
        assert(all.take(0) =~= Seq::<InstalledRecord>::empty());
        while i < n
            invariant
                i <= n,
                n == all.len(),
                all == records@,
                all_kegs == kegs.deep_view(),
                all_staged == staged.deep_view(),
                store.kegs() == distinct_keys(all_kegs, kegs.len() as int),
                store.staged() == staged_keys(all_staged, all_kegs, staged.len() as int),
                rest@ == all.skip(i as int),
                store.wf(),
                store.records() == all.take(i as int),
                forall|key: Seq<char>| #[trigger]
                    store.kegs().contains(key) <==> all_kegs.contains(key),
                forall|key: Seq<char>| #[trigger]
                    store.staged().contains(key) <==> all_staged.contains(key)
                        && !all_kegs.contains(key),
                forall|j: int| 0 <= j < i ==> !#[trigger] defect(all, all_kegs, j),
            decreases n - i,
        {
            let record = rest.remove(0);
            proof {
                assert(record == all[i as int]);
                assert(rest@ =~= all.skip(i + 1));
                assert(record_names(all.take(i as int)) =~= record_names(all).take(i as int));
            }
            if store.get(record.name.as_str()).is_some() && store.contains(
                record.store_key.as_str(),
            ) {
                let mut message = String::from_str("formula recorded twice: ");
                message.append(record.name.as_str());
                let e = Error::StoreCorruption { message };
                proof {
                    assert(record_names(store.records()).contains(record.name@));
                    assert(all_kegs.contains(record.store_key@));
                    assert(defect(all, all_kegs, i as int));
                    assert(e.is_store_corruption(defect_text(all, all_kegs, i as int)));
                }
                return Err(e);
            }
            match store.insert(record) {
                Ok(_) => {
                    proof {
                        assert(store.records() =~= all.take(i + 1));
                        assert(!defect(all, all_kegs, i as int));
                    }
                },
                Err(e) => {
                    proof {
                        assert(!all_kegs.contains(all[i as int].store_key@));
                        assert(defect(all, all_kegs, i as int));
                        assert(e.is_store_corruption(defect_text(all, all_kegs, i as int)));
                    }
                    return Err(e);
                },
            }
            i = i + 1;
        }
        assert(all.take(i as int) =~= all);
        Ok(store)
    }
}

/// A file of the fetch cache, and when it was last changed, in seconds since
/// the epoch.
#[derive(Debug, PartialEq, Eq)]
pub struct CacheEntry {
    pub path: String,
    pub modified: u64,
}

/// Whether a file that was changed at `modified` is older at `now` than
/// `max_age` seconds.
pub open spec fn expired(modified: u64, now: u64, max_age: u64) -> bool {
    modified <= now && now - modified > max_age
}

/// The paths of those of the first `upto` of `entries` that are expired, in
/// order.
pub open spec fn expired_paths(entries: Seq<CacheEntry>, now: u64, max_age: u64, upto: int) -> Seq<
    Seq<char>,
>
    decreases upto,
{
    if upto <= 0 {
        Seq::empty()
    } else if expired(entries[upto - 1].modified, now, max_age) {
        expired_paths(entries, now, max_age, upto - 1).push(entries[upto - 1].path@)
    } else {
        expired_paths(entries, now, max_age, upto - 1)
    }
}

/// The files of the fetch cache to delete: those that were last changed
/// more than `max_age` seconds before `now`. A file from the future stays.
pub fn prune_cache(entries: &Vec<CacheEntry>, now: u64, max_age: u64) -> (paths: Vec<String>)
    ensures
        paths.deep_view() == expired_paths(entries@, now, max_age, entries.len() as int),
{
    let mut paths: Vec<String> = Vec::new();
    let mut i: usize = 0;
    assert(paths.deep_view() =~= expired_paths(entries@, now, max_age, 0));
    while i < entries.len()
        invariant
            i <= entries.len(),
            paths.deep_view() == expired_paths(entries@, now, max_age, i as int),
        decreases entries.len() - i,
    {
        let ghost have = paths.deep_view();
        let entry = &entries[i];
        if entry.modified <= now && now - entry.modified > max_age {
            paths.push(entry.path.clone());
            assert(paths.deep_view() =~= have.push(entries@[i as int].path@));
        }
        i = i + 1;
    }
    paths
}

/// What goes into the key of a keg: the name of the formula, its version,
/// the checksum of what was selected for it, and the catalog key of the
/// platform, each on a line of its own.
pub open spec fn store_key_text(
    name: Seq<char>,
    upstream: Seq<char>,
    revision: u32,
    rebuild: u32,
    checksum: Seq<char>,
    platform_key: Seq<char>,
) -> Seq<char> {
    name + "\n"@ + upstream + "_"@ + crate::text::nat_text(revision as nat) + "_"@
        + crate::text::nat_text(rebuild as nat) + "\n"@ + checksum + "\n"@ + platform_key
}

/// The text whose digest, in hexadecimal digits, is the store key of an
/// installation.
pub fn store_key_material(
    name: &str,
    version: &crate::formula::types::Version,
    checksum: &str,
    platform_key: &str,
) -> (text: String)
    ensures
        text@ == store_key_text(
            name@,
            version.upstream@,
            version.revision,
            version.rebuild,
            checksum@,
            platform_key@,
        ),
{
    let mut text = String::from_str(name);
    text.append("\n");
    text.append(version.upstream.as_str());
    text.append("_");
    crate::text::push_decimal(&mut text, version.revision as u64);
    text.append("_");
    crate::text::push_decimal(&mut text, version.rebuild as u64);
    text.append("\n");
    text.append(checksum);
    text.append("\n");
    text.append(platform_key);
    text
}

} // verus!
