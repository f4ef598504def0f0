//! The session store: an in-memory cache of sessions layered over an
//! optional table of durable records. A record holds the canonical document
//! text of one session under a filename stem derived from the session key by
//! replacing characters illegal in filenames. Two distinct keys that collapse
//! to the same stem are an accepted, documented collision.
//!
//! The store itself never performs input/output: a file-backed wrapper reads
//! record texts from disk into the store and writes them back out after each
//! mutation, handing plain strings both ways.

use crate::codec::{decode_session, doc_of_session, encode_session, parse_session_doc};
use crate::errors::PicoError;
use crate::session::{MessageView, Session, SessionView};
use vstd::pervasive::VecAdditionalExecFns;
use vstd::prelude::*;
use vstd::string::*;

verus! {

// ---------------------------------------------------------------------------
// Association lists with unique keys
// ---------------------------------------------------------------------------
/// First value bound to `key`, if any.
pub open spec fn assoc_find<T>(entries: Seq<(String, T)>, key: Seq<char>) -> Option<T>
    decreases entries.len(),
{
    if entries.len() == 0 {
        None
    } else if entries[0].0@ == key {
        Some(entries[0].1)
    } else {
        assoc_find(entries.skip(1), key)
    }
}

/// No two entries bind the same key.
pub open spec fn unique_keys<T>(entries: Seq<(String, T)>) -> bool {
    forall|i: int, j: int|
        0 <= i < j < entries.len() ==> (#[trigger] entries[i]).0@ != (#[trigger] entries[j]).0@
}

/// Scanning past non-matching entries does not change what is found.
proof fn lemma_assoc_skip<T>(entries: Seq<(String, T)>, key: Seq<char>, i: int)
    requires
        0 <= i <= entries.len(),
        forall|q: int| 0 <= q < i ==> (#[trigger] entries[q]).0@ != key,
    ensures
        assoc_find(entries, key) == assoc_find(entries.skip(i), key),
    decreases i,
{
    if i == 0 {
        assert(entries.skip(0) =~= entries);
    } else {
        assert(entries[0].0@ != key);
        assert(entries.skip(1).skip(i - 1) =~= entries.skip(i));
        lemma_assoc_skip(entries.skip(1), key, i - 1);
    }
}

/// What a push binds: the new entry is found only where nothing was bound.
proof fn lemma_assoc_push<T>(entries: Seq<(String, T)>, e: (String, T), key: Seq<char>)
    ensures
        assoc_find(entries.push(e), key) == (if assoc_find(entries, key) is Some {
            assoc_find(entries, key)
        } else if e.0@ == key {
            Some(e.1)
        } else {
            None
        }),
    decreases entries.len(),
{
    let pushed = entries.push(e);
    if entries.len() == 0 {
        assert(pushed[0] == e);
        assert(pushed.skip(1) =~= Seq::<(String, T)>::empty());
        assert(assoc_find(pushed.skip(1), key) is None);
        assert(assoc_find(entries, key) is None);
        if e.0@ == key {
            assert(assoc_find(pushed, key) == Some(e.1));
        } else {
            assert(assoc_find(pushed, key) is None);
        }
    } else {
        assert(pushed[0] == entries[0]);
        assert(pushed.skip(1) =~= entries.skip(1).push(e));
        lemma_assoc_push(entries.skip(1), e, key);
    }
}

/// What an in-place update binds, provided the key of the slot is kept.
proof fn lemma_assoc_update<T>(entries: Seq<(String, T)>, idx: int, e: (String, T), key: Seq<char>)
    requires
        0 <= idx < entries.len(),
        entries[idx].0@ == e.0@,
        forall|q: int| 0 <= q < idx ==> (#[trigger] entries[q]).0@ != e.0@,
    ensures
        assoc_find(entries.update(idx, e), key) == (if e.0@ == key {
            Some(e.1)
        } else {
            assoc_find(entries, key)
        }),
    decreases idx,
{
    let updated = entries.update(idx, e);
    if idx == 0 {
        assert(updated[0] == e);
        assert(updated.skip(1) =~= entries.skip(1));
        if e.0@ != key {
            assert(entries[0].0@ != key);
        }
    } else {
        assert(updated[0] == entries[0]);
        assert(entries[0].0@ != e.0@);
        assert(updated.skip(1) =~= entries.skip(1).update(idx - 1, e));
        assert(entries.skip(1)[idx - 1] == entries[idx]);
        assert forall|q: int| 0 <= q < idx - 1 implies (#[trigger] entries.skip(1)[q]).0@
            != e.0@ by {
            assert(entries.skip(1)[q] == entries[q + 1]);
        }
        lemma_assoc_update(entries.skip(1), idx - 1, e, key);
    }
}

/// What a removal unbinds, provided nothing before the slot matched its key.
proof fn lemma_assoc_remove<T>(entries: Seq<(String, T)>, idx: int, key: Seq<char>)
    requires
        0 <= idx < entries.len(),
        unique_keys(entries),
        forall|q: int| 0 <= q < idx ==> (#[trigger] entries[q]).0@ != entries[idx].0@,
    ensures
        assoc_find(entries.remove(idx), key) == (if entries[idx].0@ == key {
            None
        } else {
            assoc_find(entries, key)
        }),
    decreases idx,
{
    let removed = entries.remove(idx);
    if idx == 0 {
        assert(removed =~= entries.skip(1));
        if entries[0].0@ == key {
            lemma_assoc_absent(entries.skip(1), key);
        }
    } else {
        assert(removed[0] == entries[0]);
        assert(removed.skip(1) =~= entries.skip(1).remove(idx - 1));
        assert(entries.skip(1)[idx - 1] == entries[idx]);
        assert forall|i: int, j: int| 0 <= i < j < entries.skip(1).len() implies (#[trigger] entries.skip(
            1,
        )[i]).0@ != (#[trigger] entries.skip(1)[j]).0@ by {
            assert(entries.skip(1)[i] == entries[i + 1]);
            assert(entries.skip(1)[j] == entries[j + 1]);
        }
        assert forall|q: int| 0 <= q < idx - 1 implies (#[trigger] entries.skip(1)[q]).0@
            != entries.skip(1)[idx - 1].0@ by {
            assert(entries.skip(1)[q] == entries[q + 1]);
        }
        lemma_assoc_remove(entries.skip(1), idx - 1, key);
    }
}

/// A key that no entry binds is not found.
proof fn lemma_assoc_absent<T>(entries: Seq<(String, T)>, key: Seq<char>)
    requires
        forall|q: int| 0 <= q < entries.len() ==> (#[trigger] entries[q]).0@ != key,
    ensures
        assoc_find(entries, key) is None,
    decreases entries.len(),
{
    if entries.len() > 0 {
        assert forall|q: int| 0 <= q < entries.skip(1).len() implies (#[trigger] entries.skip(
            1,
        )[q]).0@ != key by {
            assert(entries.skip(1)[q] == entries[q + 1]);
        }
        lemma_assoc_absent(entries.skip(1), key);
    }
}

/// Index of the first entry bound to `key`, if any.
fn find_entry<T>(entries: &Vec<(String, T)>, key: &String) -> (r: Option<usize>)
    ensures
        match r {
            Some(idx) => idx < entries.len() && entries@[idx as int].0@ == key@ && assoc_find(
                entries@,
                key@,
            ) == Some(entries@[idx as int].1) && (forall|q: int|
                0 <= q < idx ==> (#[trigger] entries@[q]).0@ != key@),
            None => assoc_find(entries@, key@) is None && (forall|q: int|
                0 <= q < entries@.len() ==> (#[trigger] entries@[q]).0@ != key@),
        },
{
    let n = entries.len();
    let mut i: usize = 0;
    while i < n
        invariant
            n == entries.len(),
            i <= n,
            forall|q: int| 0 <= q < i ==> (#[trigger] entries@[q]).0@ != key@,
        decreases n - i,
    {
        if entries[i].0 == *key {
            proof {
                lemma_assoc_skip(entries@, key@, i as int);
                assert(entries@.skip(i as int)[0] == entries@[i as int]);
            }
            return Some(i);
        }
        i += 1;
    }
    proof {
        lemma_assoc_absent(entries@, key@);
    }
    None
}

// ---------------------------------------------------------------------------
// Key sanitization
// ---------------------------------------------------------------------------
/// Characters that cannot appear in a filename on common systems.
pub open spec fn illegal_in_filename(c: char) -> bool {
    c == '/' || c == '\\' || c == ':' || c == '*' || c == '?' || c == '"' || c == '<' || c == '>'
        || c == '|'
}

/// A key with every illegal character replaced by an underscore.
pub open spec fn sanitized(s: Seq<char>) -> Seq<char> {
    s.map_values(
        |c: char|
            if illegal_in_filename(c) {
                '_'
            } else {
                c
            },
    )
}

// ---------------------------------------------------------------------------
// The store
// ---------------------------------------------------------------------------
/// A session store: cached sessions under their keys, and, when persistence
/// is enabled, durable record texts under sanitized filename stems.
pub struct SessionManager {
    cache: Vec<(String, Session)>,
    records: Option<Vec<(String, String)>>,
}

impl SessionManager {
    /// The cached sessions, in insertion order.
    pub closed spec fn cache_entries(self) -> Seq<(String, Session)> {
        self.cache@
    }

    /// The durable records, if persistence is enabled.
    pub closed spec fn record_entries(self) -> Option<Seq<(String, String)>> {
        match self.records {
            None => None,
            Some(r) => Some(r@),
        }
    }

    /// Whether durable records are kept at all.
    pub open spec fn persistent(self) -> bool {
        self.record_entries() is Some
    }

    /// The cached session under `key`, if any.
    pub open spec fn cache_lookup(self, key: Seq<char>) -> Option<SessionView> {
        match assoc_find(self.cache_entries(), key) {
            None => None,
            Some(s) => Some(s@),
        }
    }

    /// The durable record text under the filename stem `stem`, if any.
    pub open spec fn record_lookup(self, stem: Seq<char>) -> Option<Seq<char>> {
        match self.record_entries() {
            None => None,
            Some(entries) => match assoc_find(entries, stem) {
                None => None,
                Some(doc) => Some(doc@),
            },
        }
    }

    /// Both tables bind each key at most once.
    pub closed spec fn wf(self) -> bool {
        &&& unique_keys(self.cache@)
        &&& match self.records {
            None => true,
            Some(r) => unique_keys(r@),
        }
    }

    /// A fresh store that keeps durable records.
    pub fn new() -> (r: SessionManager)
        ensures
            r.wf(),
            r.persistent(),
            forall|k: Seq<char>| r.cache_lookup(k) is None,
            forall|k: Seq<char>| r.record_lookup(k) is None,
    {
        let r = SessionManager { cache: Vec::new(), records: Some(Vec::new()) };
        proof {
            assert(r.cache@.len() == 0);
            assert(r.records.unwrap()@.len() == 0);
        }
        r
    }

    /// A fresh in-memory store without persistence.
    pub fn new_memory() -> (r: SessionManager)
        ensures
            r.wf(),
            !r.persistent(),
            forall|k: Seq<char>| r.cache_lookup(k) is None,
            forall|k: Seq<char>| r.record_lookup(k) is None,
    {
        let r = SessionManager { cache: Vec::new(), records: None };
        proof {
            assert(r.cache@.len() == 0);
        }
        r
    }

    /// Replace characters that are illegal in filenames with underscores.
    pub fn sanitize_key(key: &str) -> (r: String)
        ensures
            r@ == sanitized(key@),
    {
        let n = key.unicode_len();
        let mut out = String::new();
        let mut i: usize = 0;
        while i < n
            invariant
                n == key@.len(),
                i <= n,
                out@ == sanitized(key@.subrange(0, i as int)),
            decreases n - i,
        {
            let c = key.get_char(i);
            if c == '/' || c == '\\' || c == ':' || c == '*' || c == '?' || c == '"' || c == '<'
                || c == '>' || c == '|' {
                crate::codec::push_char(&mut out, '_');
            } else {
                crate::codec::push_char(&mut out, c);
            }
            proof {
                assert(out@ =~= sanitized(key@.subrange(0, i + 1 as int)));
            }
            i += 1;
        }
        proof {
            assert(key@.subrange(0, n as int) =~= key@);
        }
        out
    }
}


impl SessionManager {
    /// What `get_or_create` guarantees: the relation between the store
    /// before the call, the store after it, and the result.
    pub open spec fn get_or_create_post(
        pre: SessionManager,
        post: SessionManager,
        key: Seq<char>,
        r: Result<Session, PicoError>,
    ) -> bool {
        &&& post.wf()
        &&& post.persistent() == pre.persistent()
        &&& post.record_entries() == pre.record_entries()
        &&& match r {
            Ok(s) => {
                &&& post.cache_lookup(key) == Some(s@)
                &&& (forall|k: Seq<char>| k != key ==> post.cache_lookup(k) == pre.cache_lookup(k))
                &&& match pre.cache_lookup(key) {
                    Some(sv) => s@ == sv && post.cache_entries() == pre.cache_entries(),
                    None => match pre.record_lookup(sanitized(key)) {
                        Some(doc) => parse_session_doc(doc) == Some(s@),
                        None => s@ == (SessionView {
                            key,
                            messages: Seq::<MessageView>::empty(),
                        }),
                    },
                }
            },
            Err(_) => {
                &&& pre.cache_lookup(key) is None
                &&& pre.record_lookup(sanitized(key)) matches Some(doc) && parse_session_doc(doc)
                    is None
                &&& post == pre
            },
        }
    }

    /// Return the cached session under `key`; else, where a durable record
    /// exists, decode it (a record that decodes to no session is a data
    /// error); else create a new empty session. Whatever was found is cached.
    pub fn get_or_create(&mut self, key: &str) -> (r: Result<Session, PicoError>)
        requires
            old(self).wf(),
        ensures
            Self::get_or_create_post(*old(self), *final (self), key@, r),
    {
        let key_s = key.to_owned();
        match find_entry(&self.cache, &key_s) {
            Some(idx) => {
                let s = self.cache[idx].1.clone();
                return Ok(s);
            },
            None => {},
        }
        let stem = Self::sanitize_key(key);
        let mut loaded: Option<Session> = None;
        match &self.records {
            None => {},
            Some(recs) => {
                match find_entry(recs, &stem) {
                    None => {},
                    Some(ridx) => {
                        match decode_session(recs[ridx].1.as_str()) {
                            Ok(s) => {
                                loaded = Some(s);
                            },
                            Err(e) => {
                                return Err(e);
                            },
                        }
                    },
                }
            },
        }
        let s = match loaded {
            Some(s) => s,
            None => Session::new(key),
        };
        let out = s.clone();
        let ghost pre_cache = self.cache@;
        self.cache.push((key_s, s));
        proof {
            assert forall|k: Seq<char>| true implies assoc_find(self.cache@, k) == (
            if assoc_find(pre_cache, k) is Some {
                assoc_find(pre_cache, k)
            } else if key@ == k {
                Some(self.cache@[pre_cache.len() as int].1)
            } else {
                None
            }) by {
                lemma_assoc_push(pre_cache, self.cache@[pre_cache.len() as int], k);
            }
            assert forall|i: int, j: int| 0 <= i < j < self.cache@.len() implies (
            #[trigger] self.cache@[i]).0@ != (#[trigger] self.cache@[j]).0@ by {
                if j < pre_cache.len() {
                    assert(self.cache@[i] == pre_cache[i] && self.cache@[j] == pre_cache[j]);
                } else {
                    assert(self.cache@[i] == pre_cache[i]);
                    assert(self.cache@[j].0@ == key@);
                }
            }
        }
        Ok(out)
    }

    /// Look a session up without ever creating one: the cache first, then
    /// the durable records. Decoding failure is a data error.
    pub fn get(&self, key: &str) -> (r: Result<Option<Session>, PicoError>)
        ensures
            match r {
                Ok(Some(s)) => match self.cache_lookup(key@) {
                    Some(sv) => s@ == sv,
                    None => self.record_lookup(sanitized(key@)) matches Some(doc)
                        && parse_session_doc(doc) == Some(s@),
                },
                Ok(None) => self.cache_lookup(key@) is None && self.record_lookup(sanitized(key@))
                    is None,
                Err(_) => self.cache_lookup(key@) is None && (self.record_lookup(
                    sanitized(key@),
                ) matches Some(doc) && parse_session_doc(doc) is None),
            },
    {
        let key_s = key.to_owned();
        match find_entry(&self.cache, &key_s) {
            Some(idx) => {
                let s = self.cache[idx].1.clone();
                return Ok(Some(s));
            },
            None => {},
        }
        let stem = Self::sanitize_key(key);
        match &self.records {
            None => Ok(None),
            Some(recs) => {
                match find_entry(recs, &stem) {
                    None => Ok(None),
                    Some(ridx) => {
                        match decode_session(recs[ridx].1.as_str()) {
                            Ok(s) => Ok(Some(s)),
                            Err(e) => Err(e),
                        }
                    },
                }
            },
        }
    }

    /// Upsert the session into the cache and, when persistence is enabled,
    /// write its record text under the sanitized stem of its key.
    pub fn save(&mut self, session: &Session) -> (r: Result<(), PicoError>)
        requires
            old(self).wf(),
        ensures
            final (self).wf(),
            r is Ok,
            final (self).persistent() == old(self).persistent(),
            final (self).cache_lookup(session@.key) == Some(session@),
            forall|k: Seq<char>|
                k != session@.key ==> final (self).cache_lookup(k) == old(self).cache_lookup(k),
            old(self).persistent() ==> final (self).record_lookup(sanitized(session@.key)) == Some(
                doc_of_session(session@),
            ),
            forall|st: Seq<char>|
                st != sanitized(session@.key) ==> final (self).record_lookup(st) == old(
                    self,
                ).record_lookup(st),
    {
        let key_s = session.key.clone();
        let s2 = session.clone();
        let ghost pre_cache = self.cache@;
        match find_entry(&self.cache, &key_s) {
            Some(idx) => {
                self.cache.set(idx, (key_s, s2));
                proof {
                    let e = self.cache@[idx as int];
                    assert forall|k: Seq<char>| true implies assoc_find(self.cache@, k) == (
                    if session@.key == k {
                        Some(e.1)
                    } else {
                        assoc_find(pre_cache, k)
                    }) by {
                        lemma_assoc_update(pre_cache, idx as int, e, k);
                    }
                    assert forall|i: int, j: int|
                        0 <= i < j < self.cache@.len() implies (#[trigger] self.cache@[i]).0@ != (
                    #[trigger] self.cache@[j]).0@ by {
                        assert(pre_cache[i].0@ != pre_cache[j].0@);
                        if i != idx as int {
                            assert(self.cache@[i] == pre_cache[i]);
                        }
                        if j != idx as int {
                            assert(self.cache@[j] == pre_cache[j]);
                        }
                    }
                }
            },
            None => {
                self.cache.push((key_s, s2));
                proof {
                    let e = self.cache@[pre_cache.len() as int];
                    assert forall|k: Seq<char>| true implies assoc_find(self.cache@, k) == (
                    if assoc_find(pre_cache, k) is Some {
                        assoc_find(pre_cache, k)
                    } else if session@.key == k {
                        Some(e.1)
                    } else {
                        None
                    }) by {
                        lemma_assoc_push(pre_cache, e, k);
                    }
                    assert forall|i: int, j: int|
                        0 <= i < j < self.cache@.len() implies (#[trigger] self.cache@[i]).0@ != (
                    #[trigger] self.cache@[j]).0@ by {
                        if j < pre_cache.len() {
                            assert(self.cache@[i] == pre_cache[i]
                                && self.cache@[j] == pre_cache[j]);
                        } else {
                            assert(self.cache@[i] == pre_cache[i]);
                            assert(self.cache@[j].0@ == session@.key);
                        }
                    }
                }
            },
        }
        let is_persistent = self.records.is_some();
        if is_persistent {
            let stem = Self::sanitize_key(session.key.as_str());
            let doc = encode_session(session);
            let recs = self.records.as_mut().unwrap();
            let ghost pre_recs = recs@;
            match find_entry(recs, &stem) {
                Some(idx) => {
                    recs.set(idx, (stem, doc));
                    proof {
                        let e = recs@[idx as int];
                        assert forall|k: Seq<char>| true implies assoc_find(recs@, k) == (
                        if sanitized(session@.key) == k {
                            Some(e.1)
                        } else {
                            assoc_find(pre_recs, k)
                        }) by {
                            lemma_assoc_update(pre_recs, idx as int, e, k);
                        }
                        assert forall|i: int, j: int|
                            0 <= i < j < recs@.len() implies (#[trigger] recs@[i]).0@ != (
                        #[trigger] recs@[j]).0@ by {
                            assert(pre_recs[i].0@ != pre_recs[j].0@);
                            if i != idx as int {
                                assert(recs@[i] == pre_recs[i]);
                            }
                            if j != idx as int {
                                assert(recs@[j] == pre_recs[j]);
                            }
                        }
                    }
                },
                None => {
                    recs.push((stem, doc));
                    proof {
                        let e = recs@[pre_recs.len() as int];
                        assert forall|k: Seq<char>| true implies assoc_find(recs@, k) == (
                        if assoc_find(pre_recs, k) is Some {
                            assoc_find(pre_recs, k)
                        } else if sanitized(session@.key) == k {
                            Some(e.1)
                        } else {
                            None
                        }) by {
                            lemma_assoc_push(pre_recs, e, k);
                        }
                        assert forall|i: int, j: int|
                            0 <= i < j < recs@.len() implies (#[trigger] recs@[i]).0@ != (
                        #[trigger] recs@[j]).0@ by {
                            if j < pre_recs.len() {
                                assert(recs@[i] == pre_recs[i] && recs@[j] == pre_recs[j]);
                            } else {
                                assert(recs@[i] == pre_recs[i]);
                                assert(recs@[j].0@ == sanitized(session@.key));
                            }
                        }
                    }
                },
            }
        }
        Ok(())
    }
}


impl SessionManager {
    /// Remove the session from the cache and its record from the durable
    /// table. A key that is nowhere bound is not an error.
    pub fn delete(&mut self, key: &str) -> (r: Result<(), PicoError>)
        requires
            old(self).wf(),
        ensures
            final (self).wf(),
            r is Ok,
            final (self).persistent() == old(self).persistent(),
            final (self).cache_lookup(key@) is None,
            forall|k: Seq<char>|
                k != key@ ==> final (self).cache_lookup(k) == old(self).cache_lookup(k),
            final (self).record_lookup(sanitized(key@)) is None,
            forall|st: Seq<char>|
                st != sanitized(key@) ==> final (self).record_lookup(st) == old(
                    self,
                ).record_lookup(st),
    {
        let key_s = key.to_owned();
        let ghost pre_cache = self.cache@;
        match find_entry(&self.cache, &key_s) {
            Some(idx) => {
                self.cache.remove(idx);
                proof {
                    assert forall|k: Seq<char>| true implies assoc_find(self.cache@, k) == (
                    if key@ == k {
                        None
                    } else {
                        assoc_find(pre_cache, k)
                    }) by {
                        lemma_assoc_remove(pre_cache, idx as int, k);
                    }
                    assert forall|i: int, j: int|
                        0 <= i < j < self.cache@.len() implies (#[trigger] self.cache@[i]).0@ != (
                    #[trigger] self.cache@[j]).0@ by {
                        let pi = if i < idx as int {
                            i
                        } else {
                            i + 1
                        };
                        let pj = if j < idx as int {
                            j
                        } else {
                            j + 1
                        };
                        assert(self.cache@[i] == pre_cache[pi]);
                        assert(self.cache@[j] == pre_cache[pj]);
                    }
                }
            },
            None => {
                proof {
                    lemma_assoc_absent(pre_cache, key@);
                }
            },
        }
        let stem = Self::sanitize_key(key);
        match &mut self.records {
            None => {},
            Some(recs) => {
                let ghost pre_recs = recs@;
                match find_entry(recs, &stem) {
                    Some(idx) => {
                        recs.remove(idx);
                        proof {
                            assert forall|k: Seq<char>| true implies assoc_find(recs@, k) == (
                            if sanitized(key@) == k {
                                None
                            } else {
                                assoc_find(pre_recs, k)
                            }) by {
                                lemma_assoc_remove(pre_recs, idx as int, k);
                            }
                            assert forall|i: int, j: int|
                                0 <= i < j < recs@.len() implies (#[trigger] recs@[i]).0@ != (
                            #[trigger] recs@[j]).0@ by {
                                let pi = if i < idx as int {
                                    i
                                } else {
                                    i + 1
                                };
                                let pj = if j < idx as int {
                                    j
                                } else {
                                    j + 1
                                };
                                assert(recs@[i] == pre_recs[pi]);
                                assert(recs@[j] == pre_recs[pj]);
                            }
                        }
                    },
                    None => {
                        proof {
                            lemma_assoc_absent(pre_recs, sanitized(key@));
                        }
                    },
                }
            },
        }
        Ok(())
    }

    /// Whether a session is cached under `key` or recorded under its
    /// sanitized stem.
    pub fn key_exists(&self, key: &str) -> (r: bool)
        ensures
            r == (self.cache_lookup(key@) is Some || self.record_lookup(sanitized(key@)) is Some),
    {
        let key_s = key.to_owned();
        match find_entry(&self.cache, &key_s) {
            Some(_) => {
                return true;
            },
            None => {},
        }
        let stem = Self::sanitize_key(key);
        match &self.records {
            None => false,
            Some(recs) => {
                match find_entry(recs, &stem) {
                    Some(_) => true,
                    None => false,
                }
            },
        }
    }

    /// Every key under which something is held: the cached keys and the
    /// record stems, without duplicates.
    pub fn list(&self) -> (r: Result<Vec<String>, PicoError>)
        requires
            self.wf(),
        ensures
            r matches Ok(keys) ==> {
                &&& (forall|i: int, j: int|
                    0 <= i < j < keys@.len() ==> (#[trigger] keys@[i])@ != (#[trigger] keys@[j])@)
                &&& keys_sorted(keys@)
                &&& (forall|k: Seq<char>|
                    #[trigger] contains_text(keys@, k) <==> (self.cache_lookup(k) is Some
                        || self.record_lookup(k) is Some))
            },
            r is Ok,
    {
        let mut keys: Vec<String> = Vec::new();
        let n = self.cache.len();
        let mut i: usize = 0;
        while i < n
            invariant
                self.wf(),
                n == self.cache@.len(),
                i <= n,
                keys@.len() == i,
                forall|q: int| 0 <= q < i ==> (#[trigger] keys@[q])@ == self.cache@[q].0@,
                forall|p: int, q: int|
                    0 <= p < q < keys@.len() ==> (#[trigger] keys@[p])@ != (#[trigger] keys@[q])@,
            decreases n - i,
        {
            keys.push(self.cache[i].0.clone());
            i += 1;
        }
        proof {
            assert forall|k: Seq<char>| #[trigger]
                contains_text(keys@, k) implies self.cache_lookup(k) is Some by {
                let q = choose|q: int| 0 <= q < keys@.len() && (#[trigger] keys@[q])@ == k;
                lemma_assoc_found_at(self.cache@, k, q);
            }
            assert forall|k: Seq<char>| self.cache_lookup(k) is Some implies contains_text(
                keys@,
                k,
            ) by {
                lemma_assoc_found_index(self.cache@, k);
                let q = choose|q: int|
                    0 <= q < self.cache@.len() && (#[trigger] self.cache@[q]).0@ == k;
                assert(keys@[q]@ == k);
            }
        }
        match &self.records {
            None => {
                let sorted = sort_keys(keys);
                Ok(sorted)
            },
            Some(recs) => {
                let ghost cache_keys = keys@;
                let m = recs.len();
                let mut j: usize = 0;
                while j < m
                    invariant
                        self.wf(),
                        m == recs@.len(),
                        recs@ == self.record_entries().unwrap(),
                        j <= m,
                        forall|p: int, q: int|
                            0 <= p < q < keys@.len() ==> (#[trigger] keys@[p])@ != (
                            #[trigger] keys@[q])@,
                        forall|k: Seq<char>| #[trigger]
                            contains_text(keys@, k) <==> (contains_text(cache_keys, k) || (
                            exists|q: int| 0 <= q < j && (#[trigger] recs@[q]).0@ == k)),
                    decreases m - j,
                {
                    let stem = &recs[j].0;
                    let ghost before = keys@;
                    if !contains_string(&keys, stem) {
                        keys.push(stem.clone());
                        proof {
                            assert forall|k: Seq<char>| #[trigger]
                                contains_text(keys@, k) implies (contains_text(cache_keys, k) || (
                            exists|q: int|
                                0 <= q < j + 1 && (#[trigger] recs@[q]).0@ == k)) by {
                                let p = choose|p: int|
                                    0 <= p < keys@.len() && (#[trigger] keys@[p])@ == k;
                                if p < before.len() {
                                    assert(contains_text(before, k));
                                } else {
                                    assert(recs@[j as int].0@ == k);
                                }
                            }
                            assert forall|k: Seq<char>|
                                (contains_text(cache_keys, k) || (exists|q: int|
                                    0 <= q < j + 1 && (#[trigger] recs@[q]).0@
                                        == k)) implies #[trigger] contains_text(keys@, k) by {
                                if contains_text(before, k) {
                                    let p = choose|p: int|
                                        0 <= p < before.len() && (#[trigger] before[p])@ == k;
                                    assert(keys@[p]@ == k);
                                } else {
                                    assert(keys@[keys@.len() - 1]@ == k);
                                }
                            }
                            assert forall|p: int, q: int|
                                0 <= p < q < keys@.len() implies (#[trigger] keys@[p])@ != (
                            #[trigger] keys@[q])@ by {
                                if q == keys@.len() - 1 {
                                    assert(!contains_text(before, keys@[q]@));
                                    assert(keys@[p] == before[p]);
                                }
                            }
                        }
                    } else {
                        proof {
                            assert forall|k: Seq<char>| #[trigger]
                                contains_text(keys@, k) implies (contains_text(cache_keys, k) || (
                            exists|q: int|
                                0 <= q < j + 1 && (#[trigger] recs@[q]).0@ == k)) by {}
                            assert forall|k: Seq<char>|
                                (contains_text(cache_keys, k) || (exists|q: int|
                                    0 <= q < j + 1 && (#[trigger] recs@[q]).0@
                                        == k)) implies #[trigger] contains_text(keys@, k) by {
                                if !contains_text(cache_keys, k) {
                                    let q = choose|q: int|
                                        0 <= q < j + 1 && (#[trigger] recs@[q]).0@ == k;
                                    if q == j as int {
                                        assert(contains_text(keys@, recs@[j as int].0@));
                                    }
                                }
                            }
                        }
                    }
                    j += 1;
                }
                proof {
                    assert forall|k: Seq<char>| #[trigger]
                        contains_text(keys@, k) <==> (self.cache_lookup(k) is Some
                        || self.record_lookup(k) is Some) by {
                        if contains_text(keys@, k) {
                            if !contains_text(cache_keys, k) {
                                let q = choose|q: int|
                                    0 <= q < recs@.len() && (#[trigger] recs@[q]).0@ == k;
                                lemma_assoc_found_at(recs@, k, q);
                            }
                        }
                        if self.record_lookup(k) is Some {
                            lemma_assoc_found_index(recs@, k);
                        }
                    }
                }
                let sorted = sort_keys(keys);
                Ok(sorted)
            },
        }
    }

    /// Drop every cached session; durable records stay.
    pub fn clear_cache(&mut self)
        requires
            old(self).wf(),
        ensures
            final (self).wf(),
            forall|k: Seq<char>| final (self).cache_lookup(k) is None,
            final (self).record_entries() == old(self).record_entries(),
            final (self).persistent() == old(self).persistent(),
    {
        self.cache.truncate(0);
        proof {
            assert(self.cache@ =~= Seq::<(String, Session)>::empty());
        }
    }

    /// The number of cached sessions.
    pub fn cache_size(&self) -> (n: usize)
        ensures
            n == self.cache_entries().len(),
    {
        self.cache.len()
    }

    /// Hand the store a durable record read from outside, bound to its
    /// filename stem. Replaces any record already under that stem.
    pub fn install_record(&mut self, stem: &str, doc: &str)
        requires
            old(self).wf(),
            old(self).persistent(),
        ensures
            final (self).wf(),
            final (self).persistent(),
            final (self).cache_entries() == old(self).cache_entries(),
            final (self).record_lookup(stem@) == Some(doc@),
            forall|st: Seq<char>|
                st != stem@ ==> final (self).record_lookup(st) == old(self).record_lookup(st),
    {
        let stem_s = stem.to_owned();
        let doc_s = doc.to_owned();
        let recs = self.records.as_mut().unwrap();
        let ghost pre_recs = recs@;
        match find_entry(recs, &stem_s) {
            Some(idx) => {
                recs.set(idx, (stem_s, doc_s));
                proof {
                    let e = recs@[idx as int];
                    assert forall|k: Seq<char>| true implies assoc_find(recs@, k) == (
                    if stem@ == k {
                        Some(e.1)
                    } else {
                        assoc_find(pre_recs, k)
                    }) by {
                        lemma_assoc_update(pre_recs, idx as int, e, k);
                    }
                    assert forall|i: int, j: int|
                        0 <= i < j < recs@.len() implies (#[trigger] recs@[i]).0@ != (
                    #[trigger] recs@[j]).0@ by {
                        assert(pre_recs[i].0@ != pre_recs[j].0@);
                        if i != idx as int {
                            assert(recs@[i] == pre_recs[i]);
                        }
                        if j != idx as int {
                            assert(recs@[j] == pre_recs[j]);
                        }
                    }
                }
            },
            None => {
                recs.push((stem_s, doc_s));
                proof {
                    let e = recs@[pre_recs.len() as int];
                    assert forall|k: Seq<char>| true implies assoc_find(recs@, k) == (
                    if assoc_find(pre_recs, k) is Some {
                        assoc_find(pre_recs, k)
                    } else if stem@ == k {
                        Some(e.1)
                    } else {
                        None
                    }) by {
                        lemma_assoc_push(pre_recs, e, k);
                    }
                    assert forall|i: int, j: int|
                        0 <= i < j < recs@.len() implies (#[trigger] recs@[i]).0@ != (
                    #[trigger] recs@[j]).0@ by {
                        if j < pre_recs.len() {
                            assert(recs@[i] == pre_recs[i] && recs@[j] == pre_recs[j]);
                        } else {
                            assert(recs@[i] == pre_recs[i]);
                            assert(recs@[j].0@ == stem@);
                        }
                    }
                }
            },
        }
    }

    /// The record text held under the sanitized stem of `key`, for a
    /// file-backed wrapper to write out.
    pub fn record_text(&self, key: &str) -> (r: Option<String>)
        ensures
            match r {
                Some(d) => self.record_lookup(sanitized(key@)) == Some(d@),
                None => self.record_lookup(sanitized(key@)) is None,
            },
    {
        let stem = Self::sanitize_key(key);
        match &self.records {
            None => None,
            Some(recs) => {
                match find_entry(recs, &stem) {
                    None => None,
                    Some(idx) => Some(recs[idx].1.clone()),
                }
            },
        }
    }
}

/// Whether some entry of `keys` reads as the text `k`.
pub open spec fn contains_text(keys: Seq<String>, k: Seq<char>) -> bool {
    exists|i: int| 0 <= i < keys.len() && (#[trigger] keys[i])@ == k
}

/// If the key at a known index matches, the association finds something.
proof fn lemma_assoc_found_at<T>(entries: Seq<(String, T)>, key: Seq<char>, q: int)
    requires
        0 <= q < entries.len(),
        entries[q].0@ == key,
    ensures
        assoc_find(entries, key) is Some,
    decreases q,
{
    if entries[0].0@ != key {
        assert(entries.skip(1)[q - 1] == entries[q]);
        lemma_assoc_found_at(entries.skip(1), key, q - 1);
    }
}

/// If the association finds something, some index matches.
proof fn lemma_assoc_found_index<T>(entries: Seq<(String, T)>, key: Seq<char>)
    requires
        assoc_find(entries, key) is Some,
    ensures
        exists|q: int| 0 <= q < entries.len() && (#[trigger] entries[q]).0@ == key,
    decreases entries.len(),
{
    if entries[0].0@ == key {
        assert(entries[0].0@ == key);
    } else {
        lemma_assoc_found_index(entries.skip(1), key);
        let q = choose|q: int|
            0 <= q < entries.skip(1).len() && (#[trigger] entries.skip(1)[q]).0@ == key;
        assert(entries[q + 1] == entries.skip(1)[q]);
    }
}

/// Whether `keys` holds a string equal to `x`.
fn contains_string(keys: &Vec<String>, x: &String) -> (r: bool)
    ensures
        r == contains_text(keys@, x@),
{
    let n = keys.len();
    let mut i: usize = 0;
    while i < n
        invariant
            n == keys@.len(),
            i <= n,
            forall|q: int| 0 <= q < i ==> (#[trigger] keys@[q])@ != x@,
        decreases n - i,
    {
        if keys[i] == *x {
            return true;
        }
        i += 1;
    }
    false
}


/// Idempotence of `get_or_create`: a second call with no intervening
/// mutation returns an equal session, leaves the cache as it was, and
/// duplicates no persisted state.
pub proof fn lemma_get_or_create_idempotent(
    m0: SessionManager,
    m1: SessionManager,
    m2: SessionManager,
    key: Seq<char>,
    r1: Result<Session, PicoError>,
    r2: Result<Session, PicoError>,
)
    requires
        SessionManager::get_or_create_post(m0, m1, key, r1),
        r1 is Ok,
        SessionManager::get_or_create_post(m1, m2, key, r2),
    ensures
        r2 is Ok,
        r2.unwrap()@ == r1.unwrap()@,
        m2.cache_entries() == m1.cache_entries(),
        m2.record_entries() == m1.record_entries(),
{
    assert(m1.cache_lookup(key) == Some(r1.unwrap()@));
}

/// Reload: a store whose durable record under the key's stem is the encoded
/// text of a session — as `save` leaves it — hands that very session back
/// from `get_or_create` once the cache no longer holds the key.
pub proof fn lemma_record_reload(
    m: SessionManager,
    m2: SessionManager,
    key: Seq<char>,
    sv: SessionView,
    r: Result<Session, PicoError>,
)
    requires
        m.cache_lookup(key) is None,
        m.record_lookup(sanitized(key)) == Some(doc_of_session(sv)),
        SessionManager::get_or_create_post(m, m2, key, r),
    ensures
        r is Ok,
        r.unwrap()@ == sv,
{
    crate::codec::lemma_session_round_trip(sv);
}


impl Default for SessionManager {
    /// An in-memory store without persistence.
    fn default() -> (r: SessionManager)
        ensures
            r.wf(),
            !r.persistent(),
            forall|k: Seq<char>| r.cache_lookup(k) is None,
    {
        SessionManager::new_memory()
    }
}


/// Lexicographic order on texts, by character code.
pub open spec fn lex_le(a: Seq<char>, b: Seq<char>) -> bool
    decreases a.len(),
{
    if a.len() == 0 {
        true
    } else if b.len() == 0 {
        false
    } else if (a[0] as u32) < (b[0] as u32) {
        true
    } else if (a[0] as u32) > (b[0] as u32) {
        false
    } else {
        lex_le(a.skip(1), b.skip(1))
    }
}


/// The lexicographic order is total.
pub proof fn lemma_lex_total(a: Seq<char>, b: Seq<char>)
    ensures
        lex_le(a, b) || lex_le(b, a),
    decreases a.len(),
{
    if a.len() > 0 && b.len() > 0 && a[0] as u32 == b[0] as u32 {
        lemma_lex_total(a.skip(1), b.skip(1));
    }
}

/// The lexicographic order is transitive.
pub proof fn lemma_lex_trans(a: Seq<char>, b: Seq<char>, c: Seq<char>)
    requires
        lex_le(a, b),
        lex_le(b, c),
    ensures
        lex_le(a, c),
    decreases a.len(),
{
    if a.len() > 0 && b.len() > 0 && c.len() > 0 && a[0] as u32 == b[0] as u32 && b[0] as u32 == c[0]
        as u32 {
        lemma_lex_trans(a.skip(1), b.skip(1), c.skip(1));
    }
}

/// Compare from position `i` on.
fn str_le_from(a: &str, b: &str, i: usize) -> (r: bool)
    requires
        i <= a@.len(),
        i <= b@.len(),
    ensures
        r == lex_le(a@.skip(i as int), b@.skip(i as int)),
    decreases a@.len() - i,
{
    proof {
        assert(a@.skip(i as int).len() == a@.len() - i);
        assert(b@.skip(i as int).len() == b@.len() - i);
    }
    if i == a.unicode_len() {
        true
    } else if i == b.unicode_len() {
        false
    } else {
        let ca = a.get_char(i);
        let cb = b.get_char(i);
        proof {
            assert(a@.skip(i as int)[0] == a@[i as int]);
            assert(b@.skip(i as int)[0] == b@[i as int]);
        }
        if (ca as u32) < (cb as u32) {
            true
        } else if (ca as u32) > (cb as u32) {
            false
        } else {
            proof {
                assert(a@.skip(i as int).skip(1) =~= a@.skip(i + 1));
                assert(b@.skip(i as int).skip(1) =~= b@.skip(i + 1));
            }
            str_le_from(a, b, i + 1)
        }
    }
}

/// Whether `a` reads at or before `b` in lexicographic order.
pub fn str_le(a: &String, b: &String) -> (r: bool)
    ensures
        r == lex_le(a@, b@),
{
    proof {
        assert(a@.skip(0) =~= a@);
        assert(b@.skip(0) =~= b@);
    }
    str_le_from(a.as_str(), b.as_str(), 0)
}

/// The list reads in lexicographic order.
pub open spec fn keys_sorted(keys: Seq<String>) -> bool {
    forall|i: int, j: int|
        0 <= i < j < keys.len() ==> lex_le((#[trigger] keys[i])@, (#[trigger] keys[j])@)
}

/// Insert each key at its place; the result is sorted, reads as the same
/// set, and keeps every key once.
fn sort_keys(keys: Vec<String>) -> (r: Vec<String>)
    requires
        forall|p: int, q: int|
            0 <= p < q < keys@.len() ==> (#[trigger] keys@[p])@ != (#[trigger] keys@[q])@,
    ensures
        keys_sorted(r@),
        forall|k: Seq<char>| #[trigger] contains_text(r@, k) <==> contains_text(keys@, k),
        forall|p: int, q: int|
            0 <= p < q < r@.len() ==> (#[trigger] r@[p])@ != (#[trigger] r@[q])@,
{
    let mut out: Vec<String> = Vec::new();
    let n = keys.len();
    let mut i: usize = 0;
    while i < n
        invariant
            n == keys@.len(),
            i <= n,
            forall|p: int, q: int|
                0 <= p < q < keys@.len() ==> (#[trigger] keys@[p])@ != (#[trigger] keys@[q])@,
            keys_sorted(out@),
            forall|k: Seq<char>| #[trigger]
                contains_text(out@, k) <==> (exists|q: int|
                    0 <= q < i && (#[trigger] keys@[q])@ == k),
            forall|p: int, q: int|
                0 <= p < q < out@.len() ==> (#[trigger] out@[p])@ != (#[trigger] out@[q])@,
        decreases n - i,
    {
        let key = keys[i].clone();
        let mut idx: usize = 0;
        while idx < out.len() && str_le(&out[idx], &key)
            invariant
                idx <= out@.len(),
                key@ == keys@[i as int]@,
                forall|q: int| 0 <= q < idx ==> lex_le((#[trigger] out@[q])@, key@),
            decreases out@.len() - idx,
        {
            idx += 1;
        }
        let ghost before = out@;
        proof {
            if idx < before.len() {
                lemma_lex_total(before[idx as int]@, key@);
            }
        }
        out.insert(idx, key);
        proof {
            assert(out@ == before.insert(idx as int, keys@[i as int]));
            assert forall|p: int, q: int|
                0 <= p < q < out@.len() implies lex_le(
                (#[trigger] out@[p])@,
                (#[trigger] out@[q])@,
            ) by {
                let bp = if p < idx as int {
                    p
                } else {
                    p - 1
                };
                let bq = if q < idx as int {
                    q
                } else {
                    q - 1
                };
                if p == idx as int {
                    // out[p] is the new key; everything after it was >= it.
                    assert(out@[q] == before[bq]);
                    if bq == idx as int {
                        assert(lex_le(out@[p]@, out@[q]@));
                    } else {
                        lemma_lex_trans(out@[p]@, before[idx as int]@, before[bq]@);
                    }
                } else if q == idx as int {
                    assert(out@[p] == before[bp]);
                } else {
                    assert(out@[p] == before[bp]);
                    assert(out@[q] == before[bq]);
                }
            }
            assert forall|k: Seq<char>| #[trigger]
                contains_text(out@, k) implies (exists|q: int|
                0 <= q < i + 1 && (#[trigger] keys@[q])@ == k) by {
                let p = choose|p: int| 0 <= p < out@.len() && (#[trigger] out@[p])@ == k;
                if p != idx as int {
                    let bp = if p < idx as int {
                        p
                    } else {
                        p - 1
                    };
                    assert(out@[p] == before[bp]);
                    assert(contains_text(before, k));
                } else {
                    assert(keys@[i as int]@ == k);
                }
            }
            assert forall|k: Seq<char>|
                (exists|q: int|
                    0 <= q < i + 1 && (#[trigger] keys@[q])@ == k) implies #[trigger] contains_text(
                out@,
                k,
            ) by {
                let q = choose|q: int| 0 <= q < i + 1 && (#[trigger] keys@[q])@ == k;
                if q < i as int {
                    assert(contains_text(before, k));
                    let p = choose|p: int| 0 <= p < before.len() && (#[trigger] before[p])@ == k;
                    let np = if p < idx as int {
                        p
                    } else {
                        p + 1
                    };
                    assert(out@[np] == before[p]);
                } else {
                    assert(out@[idx as int]@ == k);
                }
            }
            assert forall|p: int, q: int|
                0 <= p < q < out@.len() implies (#[trigger] out@[p])@ != (#[trigger] out@[q])@ by {
                let bp = if p < idx as int {
                    p
                } else {
                    p - 1
                };
                let bq = if q < idx as int {
                    q
                } else {
                    q - 1
                };
                if p == idx as int {
                    assert(out@[q] == before[bq]);
                    assert(!contains_text(before, keys@[i as int]@));
                } else if q == idx as int {
                    assert(out@[p] == before[bp]);
                    assert(!contains_text(before, keys@[i as int]@));
                } else {
                    assert(out@[p] == before[bp]);
                    assert(out@[q] == before[bq]);
                }
            }
        }
        i += 1;
    }
    out
}

} // verus!
