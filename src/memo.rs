//! The store: entries keyed by text, with a record of the last key used.
use vstd::prelude::*;
use crate::timestamp::{
    format_timestamp, lemma_timestamp_text_round_trip, parse_timestamp, timestamp_of, timestamp_text,
};

verus! {

/// One stored value, with an optional expiry instant kept as decimal text.
#[derive(Debug)]
pub struct MemoVariable {
    pub value: String,
    pub ttl: Option<String>,
}

/// Metadata kept beside the entries.
#[derive(Debug)]
pub struct MemoMeta {
    pub last_key_used: Option<String>,
}

/// Outcomes of an operation that leave the store as it was.
#[derive(Debug, Clone, Copy, PartialEq, Eq, Structural)]
pub enum MemoError {
    /// `add` on a key that is already present.
    AlreadyExists,
    /// An operation on a key that is not present.
    NotFound,
    /// Loaded data that names one key twice.
    DuplicateKey,
}

/// What an entry holds.
pub ghost struct VariableModel {
    pub value: Seq<char>,
    pub ttl: Option<Seq<char>>,
}

/// What a store holds: its entries by key, and the last key used.
pub ghost struct MemoModel {
    pub store: Map<Seq<char>, VariableModel>,
    pub last_key_used: Option<Seq<char>>,
}

pub open spec fn opt_view(s: Option<String>) -> Option<Seq<char>> {
    match s {
        Some(t) => Some(t@),
        None => None,
    }
}

impl View for MemoVariable {
    type V = VariableModel;

    open spec fn view(&self) -> VariableModel {
        VariableModel { value: self.value@, ttl: opt_view(self.ttl) }
    }
}

/// No two pairs share a key.
pub open spec fn unique_keys(s: Seq<(String, MemoVariable)>) -> bool {
    forall|i: int, j: int|
        0 <= i < s.len() && 0 <= j < s.len() && i != j ==> #[trigger] s[i].0@ != #[trigger] s[j].0@
}

pub open spec fn has_key(s: Seq<(String, MemoVariable)>, k: Seq<char>) -> bool {
    exists|i: int| 0 <= i < s.len() && #[trigger] s[i].0@ == k
}

/// The map from key to entry that a sequence of pairs describes.
pub open spec fn entries_map(s: Seq<(String, MemoVariable)>) -> Map<Seq<char>, VariableModel> {
    Map::new(
        |k: Seq<char>| has_key(s, k),
        |k: Seq<char>| s[choose|i: int| 0 <= i < s.len() && #[trigger] s[i].0@ == k].1@,
    )
}

/// The key that an operation works on: the literal `-` stands for the last
/// key used, where there is one.
pub open spec fn resolved_key(m: MemoModel, key: Seq<char>) -> Seq<char> {
    if key == seq!['-'] && m.last_key_used is Some {
        m.last_key_used->Some_0
    } else {
        key
    }
}

pub open spec fn ttl_text(ttl: Option<i64>) -> Option<Seq<char>> {
    match ttl {
        Some(t) => Some(timestamp_text(t)),
        None => None,
    }
}

/// The store after a successful `add`.
pub open spec fn added(m: MemoModel, key: Seq<char>, value: Seq<char>, ttl: Option<i64>) -> MemoModel {
    MemoModel {
        store: m.store.insert(key, VariableModel { value, ttl: ttl_text(ttl) }),
        last_key_used: Some(key),
    }
}

/// An entry after `set`: each field that is given replaces the old one.
pub open spec fn updated(v: VariableModel, value: Option<Seq<char>>, ttl: Option<i64>) -> VariableModel {
    VariableModel {
        value: match value {
            Some(s) => s,
            None => v.value,
        },
        ttl: match ttl {
            Some(t) => Some(timestamp_text(t)),
            None => v.ttl,
        },
    }
}

/// The store after a successful `set` of the resolved key `k`.
pub open spec fn set_model(m: MemoModel, k: Seq<char>, value: Option<Seq<char>>, ttl: Option<i64>) -> MemoModel {
    MemoModel {
        store: m.store.insert(k, updated(m.store[k], value, ttl)),
        last_key_used: Some(k),
    }
}

/// What a read of `key` finds.
pub open spec fn lookup(m: MemoModel, key: Seq<char>) -> Option<VariableModel> {
    let k = resolved_key(m, key);
    if m.store.contains_key(k) {
        Some(m.store[k])
    } else {
        None
    }
}

/// The store after a read of `key`: a hit records the key as last used.
pub open spec fn after_get(m: MemoModel, key: Seq<char>) -> MemoModel {
    let k = resolved_key(m, key);
    if m.store.contains_key(k) {
        MemoModel { last_key_used: Some(k), ..m }
    } else {
        m
    }
}

/// An entry outlives the instant `now` unless its expiry reads as a
/// timestamp at or before `now`.
pub open spec fn survives(v: VariableModel, now: i64) -> bool {
    match v.ttl {
        Some(t) => match timestamp_of(t) {
            Some(x) => x > now,
            None => true,
        },
        None => true,
    }
}

/// The store after the entries expired at `now` are dropped.
pub open spec fn swept(m: MemoModel, now: i64) -> MemoModel {
    MemoModel {
        store: Map::new(
            |k: Seq<char>| m.store.contains_key(k) && survives(m.store[k], now),
            |k: Seq<char>| m.store[k],
        ),
        last_key_used: m.last_key_used,
    }
}

proof fn lemma_entry_at(s: Seq<(String, MemoVariable)>, i: int)
    requires
        unique_keys(s),
        0 <= i < s.len(),
    ensures
        entries_map(s).contains_key(s[i].0@),
        entries_map(s)[s[i].0@] == s[i].1@,
{
    let k = s[i].0@;
    assert(has_key(s, k));
    let j = choose|j: int| 0 <= j < s.len() && #[trigger] s[j].0@ == k;
    assert(j == i);
}

proof fn lemma_push(s: Seq<(String, MemoVariable)>, e: (String, MemoVariable))
    requires
        unique_keys(s),
        !has_key(s, e.0@),
    ensures
        unique_keys(s.push(e)),
        entries_map(s.push(e)) =~= entries_map(s).insert(e.0@, e.1@),
{
    let t = s.push(e);
    assert(unique_keys(t)) by {
        assert forall|i: int, j: int|
            0 <= i < t.len() && 0 <= j < t.len() && i != j implies #[trigger] t[i].0@ != #[trigger] t[j].0@ by {
            if i == s.len() {
                assert(t[j] == s[j]);
            } else if j == s.len() {
                assert(t[i] == s[i]);
            } else {
                assert(t[i] == s[i] && t[j] == s[j]);
            }
        }
    }
    assert forall|k: Seq<char>| #[trigger] has_key(t, k) == (has_key(s, k) || k == e.0@) by {
        if has_key(s, k) {
            let i = choose|i: int| 0 <= i < s.len() && #[trigger] s[i].0@ == k;
            assert(t[i] == s[i]);
        }
        if k == e.0@ {
            assert(t[s.len() as int] == e);
        }
    }
    assert forall|k: Seq<char>| has_key(t, k) implies #[trigger] entries_map(t)[k] == entries_map(
        s,
    ).insert(e.0@, e.1@)[k] by {
        let i = choose|i: int| 0 <= i < t.len() && #[trigger] t[i].0@ == k;
        lemma_entry_at(t, i);
        if i < s.len() {
            assert(t[i] == s[i]);
            lemma_entry_at(s, i);
        }
    }
}

proof fn lemma_update(s: Seq<(String, MemoVariable)>, i: int, e: (String, MemoVariable))
    requires
        unique_keys(s),
        0 <= i < s.len(),
        e.0@ == s[i].0@,
    ensures
        unique_keys(s.update(i, e)),
        entries_map(s.update(i, e)) =~= entries_map(s).insert(e.0@, e.1@),
{
    let t = s.update(i, e);
    assert(unique_keys(t)) by {
        assert forall|a: int, b: int|
            0 <= a < t.len() && 0 <= b < t.len() && a != b implies #[trigger] t[a].0@ != #[trigger] t[b].0@ by {
            assert(t[a].0@ == s[a].0@ && t[b].0@ == s[b].0@);
        }
    }
    assert forall|k: Seq<char>| #[trigger] has_key(t, k) == has_key(s, k) by {
        if has_key(s, k) {
            let j = choose|j: int| 0 <= j < s.len() && #[trigger] s[j].0@ == k;
            assert(t[j].0@ == s[j].0@);
        }
        if has_key(t, k) {
            let j = choose|j: int| 0 <= j < t.len() && #[trigger] t[j].0@ == k;
            assert(t[j].0@ == s[j].0@);
        }
    }
    assert forall|k: Seq<char>| has_key(t, k) implies #[trigger] entries_map(t)[k] == entries_map(
        s,
    ).insert(e.0@, e.1@)[k] by {
        let j = choose|j: int| 0 <= j < t.len() && #[trigger] t[j].0@ == k;
        lemma_entry_at(t, j);
        if j != i {
            assert(t[j] == s[j]);
            lemma_entry_at(s, j);
        }
    }
}

proof fn lemma_remove(s: Seq<(String, MemoVariable)>, i: int)
    requires
        unique_keys(s),
        0 <= i < s.len(),
    ensures
        unique_keys(s.remove(i)),
        entries_map(s.remove(i)) =~= entries_map(s).remove(s[i].0@),
{
    let t = s.remove(i);
    assert(forall|a: int| 0 <= a < t.len() ==> #[trigger] t[a] == if a < i { s[a] } else { s[a + 1] });
    assert(unique_keys(t)) by {
        assert forall|a: int, b: int|
            0 <= a < t.len() && 0 <= b < t.len() && a != b implies #[trigger] t[a].0@ != #[trigger] t[b].0@ by {
            let a2 = if a < i { a } else { a + 1 };
            let b2 = if b < i { b } else { b + 1 };
            assert(t[a] == s[a2] && t[b] == s[b2]);
        }
    }
    assert forall|k: Seq<char>| #[trigger] has_key(t, k) == (has_key(s, k) && k != s[i].0@) by {
        if has_key(s, k) && k != s[i].0@ {
            let j = choose|j: int| 0 <= j < s.len() && #[trigger] s[j].0@ == k;
            if j < i {
                assert(t[j] == s[j]);
            } else {
                assert(t[j - 1] == s[j]);
            }
        }
        if has_key(t, k) {
            let j = choose|j: int| 0 <= j < t.len() && #[trigger] t[j].0@ == k;
            let j2 = if j < i { j } else { j + 1 };
            assert(t[j] == s[j2]);
        }
    }
    assert forall|k: Seq<char>| has_key(t, k) implies #[trigger] entries_map(t)[k] == entries_map(s)[k] by {
        let j = choose|j: int| 0 <= j < t.len() && #[trigger] t[j].0@ == k;
        let j2 = if j < i { j } else { j + 1 };
        assert(t[j] == s[j2]);
        lemma_entry_at(t, j);
        lemma_entry_at(s, j2);
    }
}

fn copy_text(s: &Option<String>) -> (r: Option<String>)
    ensures
        opt_view(r) == opt_view(*s),
{
    match s {
        Some(t) => Some(t.clone()),
        None => None,
    }
}

fn copy_variable(v: &MemoVariable) -> (r: MemoVariable)
    ensures
        r@ == v@,
{
    MemoVariable { value: v.value.clone(), ttl: copy_text(&v.ttl) }
}

fn is_shortcut(key: &str) -> (r: bool)
    ensures
        r == (key@ == seq!['-']),
{
    let n = key.unicode_len();
    if n != 1 {
        proof {
            if key@ == seq!['-'] {
                assert(key@.len() == 1);
            }
        }
        return false;
    }
    let c = key.get_char(0);
    proof {
        if c == '-' {
            assert(key@ =~= seq!['-']);
        }
    }
    c == '-'
}

/// The store: entries by key, the metadata record, and the file it is bound to.
pub struct Memo {
    store: Vec<(String, MemoVariable)>,
    pub meta: MemoMeta,
    file_path: String,
}

impl View for Memo {
    type V = MemoModel;

    closed spec fn view(&self) -> MemoModel {
        MemoModel { store: entries_map(self.store@), last_key_used: opt_view(self.meta.last_key_used) }
    }
}


pub open spec fn opt_str_view(s: Option<&str>) -> Option<Seq<char>> {
    match s {
        Some(t) => Some(t@),
        None => None,
    }
}

/// The store that loaded pairs and metadata describe.
pub open spec fn loaded(s: Seq<(String, MemoVariable)>, meta: MemoMeta) -> MemoModel {
    MemoModel { store: entries_map(s), last_key_used: opt_view(meta.last_key_used) }
}

impl Memo {
    /// No key appears twice among the entries.
    pub closed spec fn wf(&self) -> bool {
        unique_keys(self.store@)
    }

    /// The file this store is bound to.
    pub closed spec fn path(&self) -> Seq<char> {
        self.file_path@
    }

    /// An empty store bound to `file_path`.
    pub fn new(file_path: String) -> (r: Memo)
        ensures
            r.wf(),
            r@ == (MemoModel { store: Map::empty(), last_key_used: None }),
            r.path() == file_path@,
    {
        let r = Memo { store: Vec::new(), meta: MemoMeta { last_key_used: None }, file_path };
        assert(r@.store =~= Map::empty());
        r
    }

    /// The store read from its file: the pairs found there and the metadata.
    /// Fails with `DuplicateKey`, and only then, where two pairs share a key.
    pub fn get_default(file_path: String, entries: Vec<(String, MemoVariable)>, meta: MemoMeta) -> (r: Result<Memo, MemoError>)
        ensures
            r is Ok <==> unique_keys(entries@),
            r is Err ==> r == Err::<Memo, MemoError>(MemoError::DuplicateKey),
            r matches Ok(m) ==> m.wf() && m@ == loaded(entries@, meta) && m.path() == file_path@,
    {
        let n = entries.len();
        let mut i: usize = 0;
        while i < n
            invariant
                n == entries@.len(),
                i <= n,
                forall|a: int, b: int|
                    0 <= a < i && 0 <= b < i && a != b ==> #[trigger] entries@[a].0@ != #[trigger] entries@[b].0@,
            decreases n - i,
        {
            let mut j: usize = 0;
            while j < i
                invariant
                    n == entries@.len(),
                    j <= i < n,
                    forall|b: int| 0 <= b < j ==> entries@[i as int].0@ != #[trigger] entries@[b].0@,
                decreases i - j,
            {
                if entries[i].0 == entries[j].0 {
                    assert(!unique_keys(entries@)) by {
                        assert(entries@[i as int].0@ == entries@[j as int].0@);
                    }
                    return Err(MemoError::DuplicateKey);
                }
                j = j + 1;
            }
            i = i + 1;
        }
        Ok(Memo { store: entries, meta, file_path })
    }

    /// The file this store is bound to.
    pub fn file_path(&self) -> (r: String)
        ensures
            r@ == self.path(),
    {
        self.file_path.clone()
    }

    /// All entries, in store order; no key occurs twice.
    pub fn list(&self) -> (r: &Vec<(String, MemoVariable)>)
        requires
            self.wf(),
        ensures
            unique_keys(r@),
            entries_map(r@) == self@.store,
    {
        &self.store
    }

    fn find(&self, key: &String) -> (r: Option<usize>)
        requires
            self.wf(),
        ensures
            match r {
                Some(i) => i < self.store@.len() && self.store@[i as int].0@ == key@,
                None => !self@.store.contains_key(key@),
            },
    {
        let n = self.store.len();
        let mut i: usize = 0;
        while i < n
            invariant
                n == self.store@.len(),
                i <= n,
                forall|j: int| 0 <= j < i ==> #[trigger] self.store@[j].0@ != key@,
            decreases n - i,
        {
            if self.store[i].0 == *key {
                return Some(i);
            }
            i = i + 1;
        }
        None
    }

    /// The key an operation works on: `-` stands for the last key used, where
    /// one is recorded; any other key stands for itself.
    pub fn resolve_key(&self, key: &str) -> (r: String)
        ensures
            r@ == resolved_key(self@, key@),
    {
        if is_shortcut(key) {
            match &self.meta.last_key_used {
                Some(k) => {
                    return k.clone();
                },
                None => {},
            }
        }
        key.to_string()
    }

    /// Reads the entry of `key` (after resolving `-`). A hit records the key
    /// as the last one used.
    pub fn get(&mut self, key: &str) -> (r: Option<MemoVariable>)
        requires
            old(self).wf(),
        ensures
            final(self).wf(),
            final(self).path() == old(self).path(),
            final(self)@ == after_get(old(self)@, key@),
            match r {
                Some(v) => lookup(old(self)@, key@) == Some(v@),
                None => lookup(old(self)@, key@) is None,
            },
    {
        let k = self.resolve_key(key);
        match self.find(&k) {
            Some(i) => {
                proof {
                    lemma_entry_at(self.store@, i as int);
                }
                let v = copy_variable(&self.store[i].1);
                self.meta.last_key_used = Some(k);
                Some(v)
            },
            None => None,
        }
    }

    /// Inserts a new entry and records its key as the last one used. Never
    /// overwrites: a key already present gives `AlreadyExists` and no change.
    pub fn add(&mut self, key: &str, value: &str, ttl: Option<i64>) -> (r: Result<(), MemoError>)
        requires
            old(self).wf(),
        ensures
            final(self).wf(),
            final(self).path() == old(self).path(),
            old(self)@.store.contains_key(key@) ==> r == Err::<(), MemoError>(MemoError::AlreadyExists)
                && final(self)@ == old(self)@,
            !old(self)@.store.contains_key(key@) ==> r == Ok::<(), MemoError>(())
                && final(self)@ == added(old(self)@, key@, value@, ttl),
    {
        let k = key.to_string();
        match self.find(&k) {
            Some(i) => {
                proof {
                    lemma_entry_at(self.store@, i as int);
                }
                Err(MemoError::AlreadyExists)
            },
            None => {
                let t = match ttl {
                    Some(t) => Some(format_timestamp(t)),
                    None => None,
                };
                let entry = (k, MemoVariable { value: value.to_string(), ttl: t });
                proof {
                    lemma_push(self.store@, entry);
                }
                self.store.push(entry);
                self.meta.last_key_used = Some(key.to_string());
                Ok(())
            },
        }
    }

    /// Changes the entry of `key` (after resolving `-`): the value where one
    /// is given, the expiry where one is given. The key becomes the last one
    /// used, even when neither is given. An absent key gives `NotFound` and no
    /// change.
    pub fn set(&mut self, key: &str, value: Option<&str>, ttl: Option<i64>) -> (r: Result<(), MemoError>)
        requires
            old(self).wf(),
        ensures
            final(self).wf(),
            final(self).path() == old(self).path(),
            ({
                let k = resolved_key(old(self)@, key@);
                &&& old(self)@.store.contains_key(k) ==> r == Ok::<(), MemoError>(())
                    && final(self)@ == set_model(old(self)@, k, opt_str_view(value), ttl)
                &&& !old(self)@.store.contains_key(k) ==> r == Err::<(), MemoError>(MemoError::NotFound)
                    && final(self)@ == old(self)@
            }),
    {
        let k = self.resolve_key(key);
        match self.find(&k) {
            Some(i) => {
                proof {
                    lemma_entry_at(self.store@, i as int);
                }
                let mut v = copy_variable(&self.store[i].1);
                match value {
                    Some(s) => {
                        v.value = s.to_string();
                    },
                    None => {},
                }
                match ttl {
                    Some(t) => {
                        v.ttl = Some(format_timestamp(t));
                    },
                    None => {},
                }
                let entry = (k.clone(), v);
                proof {
                    lemma_update(self.store@, i as int, entry);
                }
                self.store.set(i, entry);
                self.meta.last_key_used = Some(k);
                Ok(())
            },
            None => Err(MemoError::NotFound),
        }
    }

    /// Removes the entry of `key` (after resolving `-`). The last key used
    /// stays as it was. An absent key gives `NotFound` and no change.
    pub fn rm(&mut self, key: &str) -> (r: Result<(), MemoError>)
        requires
            old(self).wf(),
        ensures
            final(self).wf(),
            final(self).path() == old(self).path(),
            ({
                let k = resolved_key(old(self)@, key@);
                &&& old(self)@.store.contains_key(k) ==> r == Ok::<(), MemoError>(())
                    && final(self)@ == (MemoModel { store: old(self)@.store.remove(k), ..old(self)@ })
                &&& !old(self)@.store.contains_key(k) ==> r == Err::<(), MemoError>(MemoError::NotFound)
                    && final(self)@ == old(self)@
            }),
    {
        let k = self.resolve_key(key);
        match self.find(&k) {
            Some(i) => {
                proof {
                    lemma_remove(self.store@, i as int);
                }
                self.store.remove(i);
                Ok(())
            },
            None => Err(MemoError::NotFound),
        }
    }

    /// Drops every entry whose expiry reads as a timestamp at or before
    /// `now`. Entries without an expiry, or whose expiry does not read as a
    /// timestamp, stay.
    pub fn flush_ttl_values(&mut self, now: i64)
        requires
            old(self).wf(),
        ensures
            final(self).wf(),
            final(self).path() == old(self).path(),
            final(self)@ == swept(old(self)@, now),
    {
        let ghost m0 = self@;
        let mut i: usize = 0;
        while i < self.store.len()
            invariant
                unique_keys(self.store@),
                i <= self.store@.len(),
                self.file_path@ == old(self).file_path@,
                opt_view(self.meta.last_key_used) == m0.last_key_used,
                forall|j: int| 0 <= j < i ==> survives(#[trigger] self.store@[j].1@, now),
                forall|k: Seq<char>| #[trigger] entries_map(self.store@).contains_key(k) ==> m0.store.contains_key(k)
                    && entries_map(self.store@)[k] == m0.store[k],
                forall|k: Seq<char>| #[trigger] m0.store.contains_key(k) && survives(m0.store[k], now)
                    ==> entries_map(self.store@).contains_key(k),
            decreases self.store@.len() - i,
        {
            let keep = match &self.store[i].1.ttl {
                Some(t) => match parse_timestamp(t.as_str()) {
                    Some(x) => x > now,
                    None => true,
                },
                None => true,
            };
            if keep {
                i = i + 1;
            } else {
                proof {
                    lemma_entry_at(self.store@, i as int);
                    lemma_remove(self.store@, i as int);
                }
                self.store.remove(i);
            }
        }
        proof {
            let s = self.store@;
            assert forall|k: Seq<char>| #[trigger] entries_map(s).contains_key(k) implies survives(m0.store[k], now) by {
                let j = choose|j: int| 0 <= j < s.len() && #[trigger] s[j].0@ == k;
                lemma_entry_at(s, j);
            }
            assert(self@.store =~= swept(m0, now).store);
        }
    }
}


/// Loading what a store hands out gives the store back: pairs with unique
/// keys that describe its entries, with its metadata, load as the same keys,
/// values, expiry texts and last key used.
pub proof fn lemma_reload_round_trip(m: MemoModel, s: Seq<(String, MemoVariable)>, meta: MemoMeta)
    requires
        unique_keys(s),
        entries_map(s) == m.store,
        opt_view(meta.last_key_used) == m.last_key_used,
    ensures
        loaded(s, meta) == m,
{
}

/// An expiry written by `add` or `set` reads back as the same instant.
pub proof fn lemma_ttl_text_round_trip(ttl: Option<i64>)
    ensures
        ttl matches Some(t) ==> ttl_text(ttl) matches Some(text) && timestamp_of(text) == Some(t),
{
    if let Some(t) = ttl {
        lemma_timestamp_text_round_trip(t);
    }
}

/// `set` changes only the fields it is given: a new value keeps the expiry,
/// a new expiry keeps the value.
pub proof fn lemma_set_fields_independent(m: MemoModel, k: Seq<char>, value: Seq<char>, ttl: i64)
    requires
        m.store.contains_key(k),
    ensures
        set_model(m, k, Some(value), None).store[k] == (VariableModel { value, ttl: m.store[k].ttl }),
        set_model(m, k, None, Some(ttl)).store[k] == (VariableModel {
            value: m.store[k].value,
            ttl: Some(timestamp_text(ttl)),
        }),
{
}

/// An entry whose expiry is `t` is swept at `now` exactly when `t <= now`:
/// an expiry equal to `now` is gone, one at `now + 1` stays.
pub proof fn lemma_expiry_boundary(m: MemoModel, k: Seq<char>, t: i64, now: i64)
    requires
        m.store.contains_key(k),
        m.store[k].ttl == Some(timestamp_text(t)),
    ensures
        swept(m, now).store.contains_key(k) <==> t > now,
        swept(m, now).store.contains_key(k) ==> swept(m, now).store[k] == m.store[k],
{
    lemma_timestamp_text_round_trip(t);
}

/// Right after `add` of a new key, the shortcut `-` reads the same entry as
/// the key itself.
pub proof fn lemma_shortcut_after_add(m: MemoModel, k: Seq<char>, value: Seq<char>, ttl: Option<i64>)
    requires
        !m.store.contains_key(k),
    ensures
        lookup(added(m, k, value, ttl), seq!['-']) == lookup(added(m, k, value, ttl), k),
        lookup(added(m, k, value, ttl), k) == Some(VariableModel { value, ttl: ttl_text(ttl) }),
{
}

} // verus!
