//! What a migration step works with: the raw values under its prefix, read,
//! written, renamed and reshaped by key.
//!
//! A step addresses keys relative to its prefix; the context spells them out
//! whole. Values are the codec's bytes: the step decodes and encodes them.
use crate::buffer::{copy_bytes, starts_with};
use crate::errors::StorageError;
use crate::path::{str_eq, strings_view};
use vstd::prelude::*;

verus! {

/// Raw storage a migration runs against: bytes by key.
pub trait RawBackend {
    /// What the storage holds.
    spec fn contents(&self) -> Map<Seq<char>, Seq<u8>>;

    /// Whether the storage answers every request: its engine is working.
    /// Storage that answers does every request asked of it and keeps
    /// answering; storage that does not may refuse any request.
    spec fn answers(&self) -> bool;

    /// The bytes at `key`, if there are any.
    fn get(&self, key: &str) -> (r: Result<Option<Vec<u8>>, StorageError>)
        ensures
            self.answers() ==> r is Ok,
            r matches Ok(v) ==> match v {
                Some(b) => self.contents().contains_key(key@) && self.contents()[key@] == b@,
                None => !self.contents().contains_key(key@),
            },
    ;

    /// Stores `value` at `key`.
    fn set(&mut self, key: &str, value: &[u8]) -> (r: Result<(), StorageError>)
        ensures
            old(self).answers() ==> r is Ok && final(self).answers(),
            r is Ok ==> final(self).contents() == old(self).contents().insert(key@, value@),
    ;

    /// Takes `key` away.
    fn delete(&mut self, key: &str) -> (r: Result<(), StorageError>)
        ensures
            old(self).answers() ==> r is Ok && final(self).answers(),
            r is Ok ==> final(self).contents() == old(self).contents().remove(key@),
    ;

    /// Every key that begins with `prefix`, with its bytes, each once.
    fn scan_prefix(&self, prefix: &str) -> (r: Result<Vec<(String, Vec<u8>)>, StorageError>)
        ensures
            self.answers() ==> r is Ok,
            r matches Ok(v) ==> listed_exactly(v@, self.contents(), prefix@),
    ;
}

/// Whether `v` lists each key of `m` that begins with `prefix` once, with its
/// bytes, and nothing else.
pub open spec fn listed_exactly(
    v: Seq<(String, Vec<u8>)>,
    m: Map<Seq<char>, Seq<u8>>,
    prefix: Seq<char>,
) -> bool {
    &&& forall|i: int|
        0 <= i < v.len() ==> starts_with((#[trigger] v[i]).0@, prefix) && m.contains_key(v[i].0@)
            && m[v[i].0@] == v[i].1@
    &&& forall|k: Seq<char>|
        #[trigger] m.contains_key(k) && starts_with(k, prefix) ==> exists|i: int|
            0 <= i < v.len() && (#[trigger] v[i]).0@ == k
    &&& forall|i: int, j: int| 0 <= i < j < v.len() ==> (#[trigger] v[i]).0@ != (#[trigger] v[j]).0@
}

/// What a list of distinct keys and bytes holds, by key.
pub open spec fn mem_contents(s: Seq<(String, Vec<u8>)>) -> Map<Seq<char>, Seq<u8>> {
    Map::new(
        |k: Seq<char>| exists|i: int| 0 <= i < s.len() && #[trigger] s[i].0@ == k,
        |k: Seq<char>| s[mem_index(s, k)].1@,
    )
}

/// Where key `k` is held in `s`.
pub open spec fn mem_index(s: Seq<(String, Vec<u8>)>, k: Seq<char>) -> int {
    choose|i: int| 0 <= i < s.len() && #[trigger] s[i].0@ == k
}

/// Whether each key is held once.
pub open spec fn mem_wf(s: Seq<(String, Vec<u8>)>) -> bool {
    forall|i: int, j: int| 0 <= i < j < s.len() ==> (#[trigger] s[i]).0@ != (#[trigger] s[j]).0@
}

/// The entry at `i` is what the list holds at its key.
pub proof fn lemma_mem_at(s: Seq<(String, Vec<u8>)>, i: int)
    requires
        mem_wf(s),
        0 <= i < s.len(),
    ensures
        mem_contents(s).contains_key(s[i].0@),
        mem_contents(s)[s[i].0@] == s[i].1@,
{
    let k = s[i].0@;
    assert(exists|j: int| 0 <= j < s.len() && #[trigger] s[j].0@ == k);
    let j = mem_index(s, k);
    if i < j {
        assert(s[i].0@ != s[j].0@);
    } else if j < i {
        assert(s[j].0@ != s[i].0@);
    }
}

/// Where `key` is in `s`.
fn mem_position(s: &Vec<(String, Vec<u8>)>, key: &str) -> (r: Option<usize>)
    ensures
        match r {
            Some(i) => i < s@.len() && s@[i as int].0@ == key@,
            None => !mem_contents(s@).contains_key(key@),
        },
{
    let mut i: usize = 0;
    while i < s.len()
        invariant
            i <= s@.len(),
            forall|j: int| 0 <= j < i ==> (#[trigger] s@[j]).0@ != key@,
        decreases s@.len() - i,
    {
        if str_eq(s[i].0.as_str(), key) {
            return Some(i);
        }
        i = i + 1;
    }
    None
}

/// `s` with `value` stored at `key`.
fn mem_put(s: &mut Vec<(String, Vec<u8>)>, key: &str, value: &[u8])
    requires
        mem_wf(old(s)@),
    ensures
        mem_wf(final(s)@),
        mem_contents(final(s)@) == mem_contents(old(s)@).insert(key@, value@),
{
    let ghost before = s@;
    let v = copy_bytes(value);
    match mem_position(s, key) {
        Some(i) => {
            s.set(i, (crate::text::owned(key), v));
            proof {
                assert forall|a: int, b: int| 0 <= a < b < s@.len() implies (#[trigger] s@[a]).0@
                    != (#[trigger] s@[b]).0@ by {
                    assert(s@[a].0@ == before[a].0@ && s@[b].0@ == before[b].0@);
                }
                let m = mem_contents(s@);
                let want = mem_contents(before).insert(key@, value@);
                assert forall|k: Seq<char>| #![trigger m.contains_key(k)] m.contains_key(k)
                    == want.contains_key(k) by {
                    if want.contains_key(k) && k != key@ {
                        let j = mem_index(before, k);
                        assert(before[j].0@ == k);
                        assert(s@[j].0@ == k);
                    }
                    if k == key@ {
                        assert(s@[i as int].0@ == key@);
                    }
                    if m.contains_key(k) && k != key@ {
                        let j = mem_index(s@, k);
                        assert(j != i);
                        assert(s@[j] == before[j]);
                        assert(before[j].0@ == k);
                    }
                }
                assert forall|k: Seq<char>| #[trigger] m.contains_key(k) implies m[k] == want[k] by {
                    let j = mem_index(s@, k);
                    lemma_mem_at(s@, j);
                    if j != i {
                        assert(s@[j] == before[j]);
                        lemma_mem_at(before, j);
                    }
                }
                assert(m =~= want);
            }
        },
        None => {
            s.push((crate::text::owned(key), v));
            proof {
                assert forall|a: int, b: int| 0 <= a < b < s@.len() implies (#[trigger] s@[a]).0@
                    != (#[trigger] s@[b]).0@ by {
                    if b < before.len() {
                        assert(s@[a] == before[a] && s@[b] == before[b]);
                    } else {
                        assert(s@[a] == before[a]);
                    }
                }
                let m = mem_contents(s@);
                let want = mem_contents(before).insert(key@, value@);
                assert forall|k: Seq<char>| #![trigger m.contains_key(k)] m.contains_key(k)
                    == want.contains_key(k) by {
                    if want.contains_key(k) && k != key@ {
                        let j = mem_index(before, k);
                        assert(s@[j] == before[j]);
                    }
                    if k == key@ {
                        assert(s@[before.len() as int].0@ == key@);
                    }
                    if m.contains_key(k) && k != key@ {
                        let j = mem_index(s@, k);
                        assert(s@[j] == before[j]);
                    }
                }
                assert forall|k: Seq<char>| #[trigger] m.contains_key(k) implies m[k] == want[k] by {
                    let j = mem_index(s@, k);
                    lemma_mem_at(s@, j);
                    if j < before.len() {
                        assert(s@[j] == before[j]);
                        lemma_mem_at(before, j);
                    }
                }
                assert(m =~= want);
            }
        },
    }
}

/// `s` with `key` taken away.
fn mem_take(s: &mut Vec<(String, Vec<u8>)>, key: &str)
    requires
        mem_wf(old(s)@),
    ensures
        mem_wf(final(s)@),
        mem_contents(final(s)@) == mem_contents(old(s)@).remove(key@),
{
    let ghost before = s@;
    match mem_position(s, key) {
        Some(i) => {
            s.remove(i);
            proof {
                assert forall|a: int, b: int| 0 <= a < b < s@.len() implies (#[trigger] s@[a]).0@
                    != (#[trigger] s@[b]).0@ by {
                    let oa = if a < i { a } else { a + 1 };
                    let ob = if b < i { b } else { b + 1 };
                    assert(s@[a] == before[oa] && s@[b] == before[ob]);
                }
                let m = mem_contents(s@);
                let want = mem_contents(before).remove(key@);
                assert forall|k: Seq<char>| #![trigger m.contains_key(k)] m.contains_key(k)
                    == want.contains_key(k) by {
                    if want.contains_key(k) {
                        let j = mem_index(before, k);
                        assert(before[j].0@ == k);
                        assert(j != i);
                        let nj = if j < i { j } else { j - 1 };
                        assert(s@[nj] == before[j]);
                        assert(s@[nj].0@ == k);
                    }
                    if m.contains_key(k) {
                        let j = mem_index(s@, k);
                        let oj = if j < i { j } else { j + 1 };
                        assert(s@[j] == before[oj]);
                        assert(oj != i);
                        if oj < i {
                            assert(before[oj].0@ != before[i as int].0@);
                        } else {
                            assert(before[i as int].0@ != before[oj].0@);
                        }
                        assert(before[oj].0@ == k);
                    }
                }
                assert forall|k: Seq<char>| #[trigger] m.contains_key(k) implies m[k] == want[k] by {
                    let j = mem_index(s@, k);
                    lemma_mem_at(s@, j);
                    let oj = if j < i { j } else { j + 1 };
                    assert(s@[j] == before[oj]);
                    lemma_mem_at(before, oj);
                }
                assert(m =~= want);
            }
        },
        None => {
            proof {
                assert(mem_contents(before).remove(key@) =~= mem_contents(before));
            }
        },
    }
}

/// Bytes by key, in memory.
pub struct MemoryBackend {
    entries: Vec<(String, Vec<u8>)>,
}

impl MemoryBackend {
    #[verifier::type_invariant]
    spec fn each_key_once(&self) -> bool {
        mem_wf(self.entries@)
    }

    /// An empty store.
    pub fn new() -> (r: MemoryBackend)
        ensures
            r.contents() == Map::<Seq<char>, Seq<u8>>::empty(),
    {
        let r = MemoryBackend { entries: Vec::new() };
        assert(r.contents() =~= Map::<Seq<char>, Seq<u8>>::empty());
        r
    }
}

impl RawBackend for MemoryBackend {
    closed spec fn contents(&self) -> Map<Seq<char>, Seq<u8>> {
        mem_contents(self.entries@)
    }

    /// Memory always answers.
    open spec fn answers(&self) -> bool {
        true
    }

    fn get(&self, key: &str) -> (r: Result<Option<Vec<u8>>, StorageError>)
        ensures
            r is Ok,
    {
        proof {
            use_type_invariant(self);
        }
        match mem_position(&self.entries, key) {
            Some(i) => {
                proof {
                    lemma_mem_at(self.entries@, i as int);
                }
                Ok(Some(copy_bytes(self.entries[i].1.as_slice())))
            },
            None => Ok(None),
        }
    }

    fn set(&mut self, key: &str, value: &[u8]) -> (r: Result<(), StorageError>)
        ensures
            r is Ok,
    {
        proof {
            use_type_invariant(&*self);
        }
        let mut entries: Vec<(String, Vec<u8>)> = Vec::new();
        std::mem::swap(&mut entries, &mut self.entries);
        mem_put(&mut entries, key, value);
        self.entries = entries;
        Ok(())
    }

    fn delete(&mut self, key: &str) -> (r: Result<(), StorageError>)
        ensures
            r is Ok,
    {
        proof {
            use_type_invariant(&*self);
        }
        let mut entries: Vec<(String, Vec<u8>)> = Vec::new();
        std::mem::swap(&mut entries, &mut self.entries);
        mem_take(&mut entries, key);
        self.entries = entries;
        Ok(())
    }

    fn scan_prefix(&self, prefix: &str) -> (r: Result<Vec<(String, Vec<u8>)>, StorageError>)
        ensures
            r is Ok,
    {
        proof {
            use_type_invariant(self);
        }
        let s = &self.entries;
        let mut out: Vec<(String, Vec<u8>)> = Vec::new();
        let mut i: usize = 0;
        while i < s.len()
            invariant
                mem_wf(s@),
                i <= s@.len(),
                forall|j: int|
                    0 <= j < out@.len() ==> starts_with((#[trigger] out@[j]).0@, prefix@)
                        && mem_contents(s@).contains_key(out@[j].0@) && mem_contents(s@)[out@[j].0@]
                        == out@[j].1@,
                forall|c: int|
                    0 <= c < i && starts_with((#[trigger] s@[c]).0@, prefix@) ==> exists|j: int|
                        0 <= j < out@.len() && (#[trigger] out@[j]).0@ == s@[c].0@,
                forall|j: int| 0 <= j < out@.len() ==> exists|c: int| 0 <= c < i && (#[trigger] s@[c]).0@ == (#[trigger] out@[j]).0@,
                forall|a: int, b: int| 0 <= a < b < out@.len() ==> (#[trigger] out@[a]).0@ != (#[trigger] out@[b]).0@,
            decreases s@.len() - i,
        {
            if crate::buffer::str_starts_with(s[i].0.as_str(), prefix) {
                proof {
                    lemma_mem_at(s@, i as int);
                }
                let ghost before = out@;
                out.push((crate::text::owned(s[i].0.as_str()), copy_bytes(s[i].1.as_slice())));
                proof {
                    let n = before.len() as int;
                    assert(out@[n].0@ == s@[i as int].0@);
                    assert forall|j: int| 0 <= j < out@.len() implies exists|c: int| 0 <= c < i + 1 && (#[trigger] s@[c]).0@ == (#[trigger] out@[j]).0@ by {
                        if j < n {
                            assert(out@[j] == before[j]);
                            let c = choose|c: int| 0 <= c < i && (#[trigger] s@[c]).0@ == before[j].0@;
                            assert(s@[c].0@ == out@[j].0@);
                        } else {
                            assert(s@[i as int].0@ == out@[j].0@);
                        }
                    }
                    assert forall|a: int, b: int| 0 <= a < b < out@.len() implies (#[trigger] out@[a]).0@ != (#[trigger] out@[b]).0@ by {
                        if b == n {
                            assert(out@[a] == before[a]);
                            let c = choose|c: int| 0 <= c < i && (#[trigger] s@[c]).0@ == before[a].0@;
                            assert(s@[c].0@ != s@[i as int].0@);
                        } else {
                            assert(out@[a] == before[a] && out@[b] == before[b]);
                        }
                    }
                    assert forall|c: int| 0 <= c < i + 1 && starts_with((#[trigger] s@[c]).0@, prefix@) implies exists|j: int|
                        0 <= j < out@.len() && (#[trigger] out@[j]).0@ == s@[c].0@ by {
                        if c < i {
                            let j = choose|j: int| 0 <= j < before.len() && (#[trigger] before[j]).0@ == s@[c].0@;
                            assert(out@[j] == before[j]);
                        } else {
                            assert(out@[n].0@ == s@[c].0@);
                        }
                    }
                    assert forall|j: int| 0 <= j < out@.len() implies starts_with((#[trigger] out@[j]).0@, prefix@)
                        && mem_contents(s@).contains_key(out@[j].0@) && mem_contents(s@)[out@[j].0@] == out@[j].1@ by {
                        if j < n {
                            assert(out@[j] == before[j]);
                        }
                    }
                }
            }
            i = i + 1;
        }
        proof {
            assert forall|k: Seq<char>| #[trigger] mem_contents(s@).contains_key(k) && starts_with(k, prefix@) implies exists|j: int|
                0 <= j < out@.len() && (#[trigger] out@[j]).0@ == k by {
                let c = mem_index(s@, k);
                assert(starts_with(s@[c].0@, prefix@));
            }
        }
        Ok(out)
    }
}


/// `key` under `prefix`: the key alone at the root, otherwise the prefix, a
/// separator and the key.
pub open spec fn scoped_key(prefix: Seq<char>, key: Seq<char>) -> Seq<char> {
    if prefix.len() == 0 {
        key
    } else {
        prefix + "."@ + key
    }
}

/// What a migration step works with: keys under one prefix.
#[derive(Debug)]
pub struct MigrationContext {
    prefix: String,
}

/// `m` with the value at `from` moved to `to`; nothing changes where there
/// is nothing at `from`. Moving a key onto itself takes it away.
pub open spec fn renamed(m: Map<Seq<char>, Seq<u8>>, from: Seq<char>, to: Seq<char>) -> Map<
    Seq<char>,
    Seq<u8>,
> {
    if m.contains_key(from) {
        m.insert(to, m[from]).remove(from)
    } else {
        m
    }
}

impl MigrationContext {
    /// The prefix keys are taken under.
    pub closed spec fn prefix_view(&self) -> Seq<char> {
        self.prefix@
    }

    /// A context for the keys under `prefix`.
    pub fn new(prefix: String) -> (r: MigrationContext)
        ensures
            r.prefix_view() == prefix@,
    {
        MigrationContext { prefix }
    }

    /// `key` spelled out whole.
    pub fn scoped_path(&self, key: &str) -> (r: String)
        ensures
            r@ == scoped_key(self.prefix_view(), key@),
    {
        if self.prefix.as_str().unicode_len() == 0 {
            crate::text::owned(key)
        } else {
            let mut out = crate::text::concat(self.prefix.as_str(), ".");
            out.append(key);
            proof {
                reveal_strlit(".");
            }
            out
        }
    }

    /// A context for the keys under `sub_prefix` of this one.
    pub fn scoped(&self, sub_prefix: &str) -> (r: MigrationContext)
        ensures
            r.prefix_view() == scoped_key(self.prefix_view(), sub_prefix@),
    {
        MigrationContext { prefix: self.scoped_path(sub_prefix) }
    }

    /// The bytes at `key`.
    pub fn get_raw<B: RawBackend>(&self, storage: &B, key: &str) -> (r: Result<Option<Vec<u8>>, StorageError>)
        ensures
            storage.answers() ==> r is Ok,
            r matches Ok(v) ==> match v {
                Some(b) => storage.contents().contains_key(scoped_key(self.prefix_view(), key@))
                    && storage.contents()[scoped_key(self.prefix_view(), key@)] == b@,
                None => !storage.contents().contains_key(scoped_key(self.prefix_view(), key@)),
            },
    {
        let full = self.scoped_path(key);
        storage.get(full.as_str())
    }

    /// Stores `value` at `key`.
    pub fn set_raw<B: RawBackend>(&self, storage: &mut B, key: &str, value: &[u8]) -> (r: Result<(), StorageError>)
        ensures
            old(storage).answers() ==> r is Ok && final(storage).answers(),
            r is Ok ==> final(storage).contents() == old(storage).contents().insert(
                scoped_key(self.prefix_view(), key@),
                value@,
            ),
    {
        let full = self.scoped_path(key);
        storage.set(full.as_str(), value)
    }

    /// Takes `key` away.
    pub fn delete<B: RawBackend>(&self, storage: &mut B, key: &str) -> (r: Result<(), StorageError>)
        ensures
            old(storage).answers() ==> r is Ok && final(storage).answers(),
            r is Ok ==> final(storage).contents() == old(storage).contents().remove(
                scoped_key(self.prefix_view(), key@),
            ),
    {
        let full = self.scoped_path(key);
        storage.delete(full.as_str())
    }

    /// Moves the value at `from` to `to`; nothing happens where there is
    /// nothing at `from`.
    pub fn rename<B: RawBackend>(&self, storage: &mut B, from: &str, to: &str) -> (r: Result<(), StorageError>)
        ensures
            old(storage).answers() ==> r is Ok && final(storage).answers(),
            r is Ok ==> final(storage).contents() == renamed(
                old(storage).contents(),
                scoped_key(self.prefix_view(), from@),
                scoped_key(self.prefix_view(), to@),
            ),
    {
        match self.get_raw(storage, from) {
            Ok(Some(bytes)) => {
                match self.set_raw(storage, to, bytes.as_slice()) {
                    Ok(()) => {},
                    Err(e) => {
                        return Err(e);
                    },
                }
                self.delete(storage, from)
            },
            Ok(None) => Ok(()),
            Err(e) => Err(e),
        }
    }

    /// Every key under `key`, with the part after `key` and a separator, and
    /// its bytes.
    pub fn scan_map_raw<B: RawBackend>(&self, storage: &B, key: &str) -> (r: Result<
        Vec<(String, Vec<u8>)>,
        StorageError,
    >)
        ensures
            storage.answers() ==> r is Ok,
            r is Ok ==> forall|i: int|
                0 <= i < r.unwrap()@.len() ==> storage.contents().contains_key(
                    map_prefix(self.prefix_view(), key@) + (#[trigger] r.unwrap()@[i]).0@,
                ) && storage.contents()[map_prefix(self.prefix_view(), key@) + r.unwrap()@[i].0@]
                    == r.unwrap()@[i].1@,
            r is Ok ==> forall|k: Seq<char>|
                #[trigger] storage.contents().contains_key(k) && starts_with(
                    k,
                    map_prefix(self.prefix_view(), key@),
                ) ==> exists|i: int|
                    0 <= i < r.unwrap()@.len() && map_prefix(self.prefix_view(), key@) + (
                    #[trigger] r.unwrap()@[i]).0@ == k,
    {
        let mut full = self.scoped_path(key);
        full.append(".");
        match storage.scan_prefix(full.as_str()) {
            Ok(raw) => {
                let n = full.as_str().unicode_len();
                let mut out: Vec<(String, Vec<u8>)> = Vec::new();
                let mut i: usize = 0;
                while i < raw.len()
                    invariant
                        listed_exactly(raw@, storage.contents(), full@),
                        n == full@.len(),
                        i <= raw@.len(),
                        out@.len() == i,
                        forall|j: int|
                            0 <= j < i ==> full@ + (#[trigger] out@[j]).0@ == raw@[j].0@ && out@[j].1@
                                == raw@[j].1@,
                    decreases raw@.len() - i,
                {
                    let k = raw[i].0.as_str();
                    let rest = k.substring_char(n, k.unicode_len());
                    proof {
                        assert(starts_with(raw@[i as int].0@, full@));
                        assert(full@ + rest@ =~= k@);
                    }
                    out.push((crate::text::owned(rest), copy_bytes(raw[i].1.as_slice())));
                    i = i + 1;
                }
                proof {
                    assert(full@ == scoped_key(self.prefix_view(), key@) + "."@);
                    assert forall|j: int| 0 <= j < out@.len() implies storage.contents().contains_key(full@ + (#[trigger] out@[j]).0@)
                        && storage.contents()[full@ + out@[j].0@] == out@[j].1@ by {
                        assert(full@ + out@[j].0@ == raw@[j].0@);
                    }
                    let mp = map_prefix(self.prefix_view(), key@);
                    assert(full@ == mp);
                    assert forall|k: Seq<char>| #[trigger] storage.contents().contains_key(k) && starts_with(k, mp) implies exists|j: int|
                        0 <= j < out@.len() && mp + (#[trigger] out@[j]).0@ == k by {
                        let j = choose|j: int| 0 <= j < raw@.len() && (#[trigger] raw@[j]).0@ == k;
                        assert(full@ + out@[j].0@ == raw@[j].0@);
                        assert(mp + out@[j].0@ == k);
                    }
                }
                let r: Result<Vec<(String, Vec<u8>)>, StorageError> = Ok(out);
                proof {
                    let mp = map_prefix(self.prefix_view(), key@);
                    assert forall|k: Seq<char>|
                        #[trigger] storage.contents().contains_key(k) && starts_with(k, mp) implies exists|i: int|
                            0 <= i < r.unwrap()@.len() && mp + (#[trigger] r.unwrap()@[i]).0@ == k by {
                        assert(r.unwrap() == out);
                        let j = choose|j: int| 0 <= j < out@.len() && mp + (#[trigger] out@[j]).0@ == k;
                        assert(r.unwrap()@[j] == out@[j]);
                    }
                }
                r
            },
            Err(e) => Err(e),
        }
    }
}

impl MigrationContext {
    /// The bytes at `full_key`, taken whole rather than under the prefix.
    pub fn global_get_raw<B: RawBackend>(&self, storage: &B, full_key: &str) -> (r: Result<Option<Vec<u8>>, StorageError>)
        ensures
            storage.answers() ==> r is Ok,
            r matches Ok(v) ==> match v {
                Some(b) => storage.contents().contains_key(full_key@) && storage.contents()[full_key@] == b@,
                None => !storage.contents().contains_key(full_key@),
            },
    {
        storage.get(full_key)
    }

    /// Stores `value` at `full_key`, taken whole rather than under the prefix.
    pub fn global_set_raw<B: RawBackend>(&self, storage: &mut B, full_key: &str, value: &[u8]) -> (r: Result<(), StorageError>)
        ensures
            old(storage).answers() ==> r is Ok && final(storage).answers(),
            r is Ok ==> final(storage).contents() == old(storage).contents().insert(full_key@, value@),
    {
        storage.set(full_key, value)
    }

    /// Rewrites the value at `key` with what `f` makes of it; nothing happens
    /// where there is nothing at `key`, and a refusal from `f` is passed on.
    pub fn transform_raw<B: RawBackend, F: FnOnce(Vec<u8>) -> Result<Vec<u8>, StorageError>>(
        &self,
        storage: &mut B,
        key: &str,
        f: F,
    ) -> (r: Result<(), StorageError>)
        requires
            forall|b: Vec<u8>| f.requires((b,)),
        ensures
            old(storage).answers() && !old(storage).contents().contains_key(scoped_key(self.prefix_view(), key@))
                ==> r is Ok,
            old(storage).answers() && r is Err ==> exists|input: Vec<u8>|
                input@ == old(storage).contents()[scoped_key(self.prefix_view(), key@)]
                    && f.ensures((input,), Err::<Vec<u8>, StorageError>(r->Err_0)),
            old(storage).answers() && r is Ok ==> final(storage).answers(),
            old(storage).answers() && r is Err ==> final(storage).contents() == old(storage).contents(),
            r is Ok && !old(storage).contents().contains_key(scoped_key(self.prefix_view(), key@))
                ==> final(storage).contents() == old(storage).contents(),
            r is Ok && old(storage).contents().contains_key(scoped_key(self.prefix_view(), key@))
                ==> exists|input: Vec<u8>, out: Vec<u8>|
                input@ == old(storage).contents()[scoped_key(self.prefix_view(), key@)]
                    && f.ensures((input,), Ok::<Vec<u8>, StorageError>(out))
                    && final(storage).contents() == old(storage).contents().insert(
                    scoped_key(self.prefix_view(), key@),
                    out@,
                ),
    {
        match self.get_raw(storage, key) {
            Ok(Some(bytes)) => {
                let ghost input = bytes;
                match f(bytes) {
                    Ok(out) => {
                        let ghost o = out;
                        let r = self.set_raw(storage, key, out.as_slice());
                        proof {
                            if r is Ok {
                                assert(f.ensures((input,), Ok::<Vec<u8>, StorageError>(o)));
                            }
                        }
                        r
                    },
                    Err(e) => Err(e),
                }
            },
            Ok(None) => Ok(()),
            Err(e) => Err(e),
        }
    }

    /// Folds the values at two keys into one at `into`, where both are
    /// there, and takes the two away; nothing happens where either is
    /// missing.
    pub fn merge_raw<B: RawBackend, F: FnOnce(Vec<u8>, Vec<u8>) -> Result<Vec<u8>, StorageError>>(
        &self,
        storage: &mut B,
        first: &str,
        second: &str,
        into: &str,
        f: F,
    ) -> (r: Result<(), StorageError>)
        requires
            forall|a: Vec<u8>, b: Vec<u8>| f.requires((a, b)),
        ensures
            old(storage).answers() && !(old(storage).contents().contains_key(scoped_key(self.prefix_view(), first@))
                && old(storage).contents().contains_key(scoped_key(self.prefix_view(), second@))) ==> r is Ok,
            old(storage).answers() && r is Err ==> exists|a: Vec<u8>, b: Vec<u8>|
                a@ == old(storage).contents()[scoped_key(self.prefix_view(), first@)]
                    && b@ == old(storage).contents()[scoped_key(self.prefix_view(), second@)]
                    && f.ensures((a, b), Err::<Vec<u8>, StorageError>(r->Err_0)),
            old(storage).answers() && r is Ok ==> final(storage).answers(),
            old(storage).answers() && r is Err ==> final(storage).contents() == old(storage).contents(),
            r is Ok && !(old(storage).contents().contains_key(scoped_key(self.prefix_view(), first@))
                && old(storage).contents().contains_key(scoped_key(self.prefix_view(), second@)))
                ==> final(storage).contents() == old(storage).contents(),
            r is Ok && old(storage).contents().contains_key(scoped_key(self.prefix_view(), first@))
                && old(storage).contents().contains_key(scoped_key(self.prefix_view(), second@))
                ==> exists|a: Vec<u8>, b: Vec<u8>, out: Vec<u8>|
                a@ == old(storage).contents()[scoped_key(self.prefix_view(), first@)]
                    && b@ == old(storage).contents()[scoped_key(self.prefix_view(), second@)]
                    && f.ensures((a, b), Ok::<Vec<u8>, StorageError>(out))
                    && final(storage).contents() == old(storage).contents().insert(
                    scoped_key(self.prefix_view(), into@),
                    out@,
                ).remove(scoped_key(self.prefix_view(), first@)).remove(scoped_key(self.prefix_view(), second@)),
    {
        let a = match self.get_raw(storage, first) {
            Ok(v) => v,
            Err(e) => {
                return Err(e);
            },
        };
        let b = match self.get_raw(storage, second) {
            Ok(v) => v,
            Err(e) => {
                return Err(e);
            },
        };
        match (a, b) {
            (Some(a), Some(b)) => {
                let ghost (ga, gb) = (a, b);
                match f(a, b) {
                    Ok(out) => {
                        let ghost o = out;
                        match self.set_raw(storage, into, out.as_slice()) {
                            Ok(()) => {},
                            Err(e) => {
                                return Err(e);
                            },
                        }
                        match self.delete(storage, first) {
                            Ok(()) => {},
                            Err(e) => {
                                return Err(e);
                            },
                        }
                        let r = self.delete(storage, second);
                        proof {
                            if r is Ok {
                                assert(f.ensures((ga, gb), Ok::<Vec<u8>, StorageError>(o)));
                            }
                        }
                        r
                    },
                    Err(e) => {
                        proof {
                            assert(f.ensures((ga, gb), Err::<Vec<u8>, StorageError>(e)));
                            assert(ga@ == old(storage).contents()[scoped_key(self.prefix_view(), first@)]);
                            assert(gb@ == old(storage).contents()[scoped_key(self.prefix_view(), second@)]);
                        }
                        let r: Result<(), StorageError> = Err(e);
                        proof {
                            assert(r->Err_0 == e);
                            assert(exists|x: Vec<u8>, y: Vec<u8>|
                                x@ == old(storage).contents()[scoped_key(self.prefix_view(), first@)]
                                    && y@ == old(storage).contents()[scoped_key(self.prefix_view(), second@)]
                                    && #[trigger] f.ensures((x, y), Err::<Vec<u8>, StorageError>(r->Err_0))) by {
                                assert(f.ensures((ga, gb), Err::<Vec<u8>, StorageError>(r->Err_0)));
                            }
                        }
                        r
                    },
                }
            },
            _ => Ok(()),
        }
    }

    /// Splits the value at `from` into two at `into`, where it is there, and
    /// takes it away; nothing happens where it is missing.
    pub fn split_raw<B: RawBackend, F: FnOnce(Vec<u8>) -> Result<(Vec<u8>, Vec<u8>), StorageError>>(
        &self,
        storage: &mut B,
        from: &str,
        first: &str,
        second: &str,
        f: F,
    ) -> (r: Result<(), StorageError>)
        requires
            forall|b: Vec<u8>| f.requires((b,)),
        ensures
            old(storage).answers() && !old(storage).contents().contains_key(scoped_key(self.prefix_view(), from@))
                ==> r is Ok,
            old(storage).answers() && r is Err ==> exists|input: Vec<u8>|
                input@ == old(storage).contents()[scoped_key(self.prefix_view(), from@)]
                    && f.ensures((input,), Err::<(Vec<u8>, Vec<u8>), StorageError>(r->Err_0)),
            old(storage).answers() && r is Ok ==> final(storage).answers(),
            old(storage).answers() && r is Err ==> final(storage).contents() == old(storage).contents(),
            r is Ok && !old(storage).contents().contains_key(scoped_key(self.prefix_view(), from@))
                ==> final(storage).contents() == old(storage).contents(),
            r is Ok && old(storage).contents().contains_key(scoped_key(self.prefix_view(), from@))
                ==> exists|input: Vec<u8>, a: Vec<u8>, b: Vec<u8>|
                input@ == old(storage).contents()[scoped_key(self.prefix_view(), from@)]
                    && f.ensures((input,), Ok::<(Vec<u8>, Vec<u8>), StorageError>((a, b)))
                    && final(storage).contents() == old(storage).contents().insert(
                    scoped_key(self.prefix_view(), first@),
                    a@,
                ).insert(scoped_key(self.prefix_view(), second@), b@).remove(scoped_key(self.prefix_view(), from@)),
    {
        match self.get_raw(storage, from) {
            Ok(Some(bytes)) => {
                let ghost input = bytes;
                match f(bytes) {
                    Ok((a, b)) => {
                        let ghost (ga, gb) = (a, b);
                        match self.set_raw(storage, first, a.as_slice()) {
                            Ok(()) => {},
                            Err(e) => {
                                return Err(e);
                            },
                        }
                        match self.set_raw(storage, second, b.as_slice()) {
                            Ok(()) => {},
                            Err(e) => {
                                return Err(e);
                            },
                        }
                        let r = self.delete(storage, from);
                        proof {
                            if r is Ok {
                                assert(f.ensures((input,), Ok::<(Vec<u8>, Vec<u8>), StorageError>((ga, gb))));
                            }
                        }
                        r
                    },
                    Err(e) => Err(e),
                }
            },
            Ok(None) => Ok(()),
            Err(e) => Err(e),
        }
    }
}

/// The spelled-out prefix a map stored at `key` keeps its entries under.
pub open spec fn map_prefix(prefix: Seq<char>, key: Seq<char>) -> Seq<char> {
    scoped_key(prefix, key) + "."@
}

/// The fields a nested migration leaves behind to be deleted: every old
/// field that was renamed, or that the new shape no longer keeps.
pub open spec fn dropped(old_field: Seq<char>, new_fields: Seq<Seq<char>>, renames: Seq<(Seq<char>, Seq<char>)>) -> bool {
    (exists|i: int| 0 <= i < renames.len() && (#[trigger] renames[i]).0 == old_field) || !new_fields.contains(old_field)
}

/// The renames' views.
pub open spec fn renames_view(v: Seq<(String, String)>) -> Seq<(Seq<char>, Seq<char>)> {
    Seq::new(v.len(), |i: int| (v[i].0@, v[i].1@))
}

/// The old fields a nested migration deletes, in their order.
pub fn fields_to_drop(old_fields: &Vec<String>, new_fields: &Vec<String>, renames: &Vec<(String, String)>) -> (r: Vec<String>)
    ensures
        strings_view(r@) == strings_view(old_fields@).filter(
            |f: Seq<char>| dropped(f, strings_view(new_fields@), renames_view(renames@)),
        ),
{
    let ghost nv = strings_view(new_fields@);
    let ghost rv = renames_view(renames@);
    let ghost ov = strings_view(old_fields@);
    let mut out: Vec<String> = Vec::new();
    let mut i: usize = 0;
    while i < old_fields.len()
        invariant
            nv == strings_view(new_fields@),
            rv == renames_view(renames@),
            ov == strings_view(old_fields@),
            i <= old_fields@.len(),
            strings_view(out@) == ov.take(i as int).filter(|f: Seq<char>| dropped(f, nv, rv)),
        decreases old_fields@.len() - i,
    {
        let name = old_fields[i].as_str();
        let mut renamed_here = false;
        let mut j: usize = 0;
        while j < renames.len()
            invariant
                rv == renames_view(renames@),
                j <= renames@.len(),
                renamed_here <==> exists|c: int| 0 <= c < j && (#[trigger] rv[c]).0 == name@,
            decreases renames@.len() - j,
        {
            if str_eq(renames[j].0.as_str(), name) {
                proof {
                    assert(rv[j as int].0 == name@);
                }
                renamed_here = true;
            }
            j = j + 1;
        }
        let mut kept = false;
        let mut j: usize = 0;
        while j < new_fields.len()
            invariant
                nv == strings_view(new_fields@),
                j <= new_fields@.len(),
                kept <==> exists|c: int| 0 <= c < j && nv[c] == name@,
            decreases new_fields@.len() - j,
        {
            if str_eq(new_fields[j].as_str(), name) {
                proof {
                    assert(nv[j as int] == name@);
                }
                kept = true;
            }
            j = j + 1;
        }
        proof {
            assert(kept == nv.contains(name@));
            let t = ov.take(i + 1);
            assert(t.drop_last() =~= ov.take(i as int));
            assert(t.last() == name@);
            assert(ov.take(i + 1).filter(|f: Seq<char>| dropped(f, nv, rv)) == ov.take(i as int).filter(|f: Seq<char>| dropped(f, nv, rv)) + (if dropped(name@, nv, rv) { seq![name@] } else { Seq::empty() })) by {
                reveal(Seq::filter);
                assert(t =~= ov.take(i as int).push(name@));
            }
        }
        if renamed_here || !kept {
            let ghost before = out@;
            out.push(crate::text::owned(name));
            proof {
                assert(strings_view(out@) =~= strings_view(before).push(name@));
            }
        } else {
            proof {
                assert(ov.take(i as int).filter(|f: Seq<char>| dropped(f, nv, rv)) + Seq::<Seq<char>>::empty() =~= ov.take(i as int).filter(|f: Seq<char>| dropped(f, nv, rv)));
            }
        }
        i = i + 1;
    }
    proof {
        assert(ov.take(i as int) =~= ov);
    }
    out
}

} // verus!
