//! Payload hydration for the runtime graph.
//!
//! When an entity becomes active, its payload is opened to surface what the index
//! could not see while payloads stayed unloaded. Results are cached by content
//! hash and counted by reference, so that identical payloads open once.

use crate::lsg::{Aabb, GeomRef, GeomRefView};
use std::sync::Arc;
use vstd::hash_map::StringHashMap;
use vstd::prelude::*;
use vstd::string::*;

verus! {

/// `Arc::clone`: another pointer to the same value.
#[verifier::external_body]
pub(crate) fn share<T>(a: &Arc<T>) -> (r: Arc<T>)
    ensures
        r == *a,
{
    Arc::clone(a)
}

/// What opening a payload surfaced. It lives in the runtime graph only.
#[derive(Debug, Clone, PartialEq)]
pub struct HydratedPayload {
    /// The cache key: the content hash, or the URI where there is none.
    pub content_hash: String,
    pub payload_uri: String,
    /// The `kind` authored inside the payload.
    pub kind: Option<String>,
    /// The `class` authored inside the payload.
    pub class: Option<String>,
    /// Coarse bounds of the loaded geometry.
    pub bbox: Option<Aabb>,
    /// How many geometry prims the payload holds.
    pub prim_count: usize,
}

/// Why a payload could not be loaded.
#[derive(Debug, Clone, PartialEq)]
pub struct LoadError {
    pub message: String,
}

/// A way to turn a geometry handle into a payload.
pub trait PayloadLoader {
    /// What the loader may return for a handle: anything, unless it says more.
    open spec fn may_load(
        &self,
        geom: GeomRefView,
        r: Result<HydratedPayload, LoadError>,
    ) -> bool {
        true
    }

    fn load(&self, geom: &GeomRef) -> (r: Result<HydratedPayload, LoadError>)
        ensures
            self.may_load(geom@, r),
    ;
}

/// The key of a payload: its content hash, or its URI where the hash is unknown.
pub open spec fn key_of(geom: GeomRefView) -> Seq<char> {
    if geom.content_hash.len() == 0 {
        geom.payload_uri
    } else {
        geom.content_hash
    }
}

/// The key of a payload.
pub fn cache_key(geom: &GeomRef) -> (key: String)
    ensures
        key@ == key_of(geom@),
{
    if geom.content_hash.as_str().is_empty() {
        geom.payload_uri.clone()
    } else {
        geom.content_hash.clone()
    }
}

/// A loader for synthetic worlds: it makes payloads up and opens no file.
pub struct StubPayloadLoader;

impl PayloadLoader for StubPayloadLoader {
    /// It never fails; the payload is a component that holds nothing.
    open spec fn may_load(
        &self,
        geom: GeomRefView,
        r: Result<HydratedPayload, LoadError>,
    ) -> bool {
        r matches Ok(p) && {
            &&& p.content_hash@ == key_of(geom)
            &&& p.payload_uri@ == geom.payload_uri
            &&& p.kind matches Some(k) && k@ == "component"@
            &&& p.class is None
            &&& p.bbox is None
            &&& p.prim_count == 0
        }
    }

    fn load(&self, geom: &GeomRef) -> (r: Result<HydratedPayload, LoadError>) {
        Ok(
            HydratedPayload {
                content_hash: cache_key(geom),
                payload_uri: geom.payload_uri.clone(),
                kind: Some("component".to_owned()),
                class: None,
                bbox: None,
                prim_count: 0,
            },
        )
    }
}

struct CacheEntry {
    payload: Arc<HydratedPayload>,
    refcount: usize,
}

/// The model of a [`PayloadCache`]: how often each loaded payload is referred to,
/// how often the loader has been called with success, and how often a payload has
/// been handed out.
pub struct CacheView {
    pub refs: Map<Seq<char>, nat>,
    pub load_calls: nat,
    pub acquisitions: nat,
}

/// One more reference to a payload; one that is not loaded is loaded.
pub open spec fn acquired(c: CacheView, key: Seq<char>) -> CacheView {
    if c.refs.contains_key(key) {
        CacheView {
            refs: c.refs.insert(key, c.refs[key] + 1),
            acquisitions: c.acquisitions + 1,
            ..c
        }
    } else {
        CacheView {
            refs: c.refs.insert(key, 1),
            load_calls: c.load_calls + 1,
            acquisitions: c.acquisitions + 1,
        }
    }
}

/// One reference less; at none the payload is unloaded.
pub open spec fn released(c: CacheView, key: Seq<char>) -> CacheView {
    if c.refs.contains_key(key) && c.refs[key] > 1 {
        CacheView { refs: c.refs.insert(key, (c.refs[key] - 1) as nat), ..c }
    } else {
        CacheView { refs: c.refs.remove(key), ..c }
    }
}

/// A cache of payloads by key, counted by reference.
pub struct PayloadCache<L: PayloadLoader> {
    loader: L,
    loaded: StringHashMap<CacheEntry>,
    load_calls: usize,
    acquisitions: usize,
}

impl<L: PayloadLoader> View for PayloadCache<L> {
    type V = CacheView;

    closed spec fn view(&self) -> CacheView {
        CacheView {
            refs: Map::new(
                |k: Seq<char>| self.loaded@.contains_key(k),
                |k: Seq<char>| self.loaded@[k].refcount as nat,
            ),
            load_calls: self.load_calls as nat,
            acquisitions: self.acquisitions as nat,
        }
    }
}

impl<L: PayloadLoader> PayloadCache<L> {
    /// The loader.
    pub closed spec fn source(&self) -> L {
        self.loader
    }

    /// The payload that is loaded under a key.
    pub closed spec fn payload_at(&self, key: Seq<char>) -> Arc<HydratedPayload> {
        self.loaded@[key].payload
    }

    /// Each payload that is loaded is referred to, and nothing was counted more
    /// often than a payload was handed out.
    pub open spec fn wf(&self) -> bool {
        &&& forall|k: Seq<char>| #[trigger]
            self@.refs.contains_key(k) ==> 1 <= self@.refs[k] <= self@.acquisitions
        &&& self@.load_calls <= self@.acquisitions
    }

    /// The counters hold `n` more.
    pub open spec fn room(&self, n: int) -> bool {
        self@.acquisitions + n <= usize::MAX
    }

    /// Do the counters hold `n` more?
    pub fn has_room(&self, n: usize) -> (b: bool)
        ensures
            b == self.room(n as int),
    {
        n <= usize::MAX - self.acquisitions
    }

    pub fn new(loader: L) -> (c: Self)
        ensures
            c.wf(),
            c.source() == loader,
            c@ == (CacheView { refs: Map::empty(), load_calls: 0, acquisitions: 0 }),
    {
        let c = PayloadCache {
            loader,
            loaded: StringHashMap::new(),
            load_calls: 0,
            acquisitions: 0,
        };
        proof {
            assert(c@.refs =~= Map::empty());
        }
        c
    }

    /// Refers to the payload of a handle, and loads it where it is not loaded
    /// yet. Returns its key and the shared payload. Where the loader fails
    /// nothing changes; it is asked only for a payload that is not loaded.
    pub fn acquire(&mut self, geom: &GeomRef) -> (r: Result<
        (String, Arc<HydratedPayload>),
        LoadError,
    >)
        requires
            old(self).wf(),
            old(self).room(1),
        ensures
            final(self).wf(),
            old(self)@.refs.contains_key(key_of(geom@)) ==> r is Ok,
            match r {
                Ok((key, payload)) => {
                    &&& key@ == key_of(geom@)
                    &&& final(self)@ == acquired(old(self)@, key_of(geom@))
                    &&& payload == final(self).payload_at(key@)
                    &&& old(self)@.refs.contains_key(key@) ==> payload == old(self).payload_at(
                        key@,
                    )
                    &&& !old(self)@.refs.contains_key(key@) ==> old(self).source().may_load(
                        geom@,
                        Ok(*payload),
                    )
                },
                Err(e) => *final(self) == *old(self) && old(self).source().may_load(
                    geom@,
                    Err(e),
                ),
            },
            final(self).source() == old(self).source(),
            forall|k: Seq<char>|
                k != key_of(geom@) ==> #[trigger] final(self).payload_at(k) == old(
                    self,
                ).payload_at(k),
    {
        let key = cache_key(geom);
        let found = match self.loaded.get(key.as_str()) {
            Some(entry) => Some((share(&entry.payload), entry.refcount)),
            None => None,
        };
        match found {
            Some((payload, refcount)) => {
                proof {
                    assert(self@.refs.contains_key(key@));
                    assert(self@.refs[key@] == refcount);
                }
                let entry = CacheEntry { payload: share(&payload), refcount: refcount + 1 };
                self.acquisitions = self.acquisitions + 1;
                self.loaded.insert(key.clone(), entry);
                proof {
                    assert(self@.refs =~= acquired(old(self)@, key@).refs);
                }
                Ok((key, payload))
            },
            None => {
                let payload = match self.loader.load(geom) {
                    Ok(p) => Arc::new(p),
                    Err(e) => return Err(e),
                };
                self.load_calls = self.load_calls + 1;
                self.acquisitions = self.acquisitions + 1;
                let entry = CacheEntry { payload: share(&payload), refcount: 1 };
                self.loaded.insert(key.clone(), entry);
                proof {
                    assert(self@.refs =~= acquired(old(self)@, key@).refs);
                }
                Ok((key, payload))
            },
        }
    }

    /// Gives up one reference; the payload is unloaded with the last one.
    pub fn release(&mut self, key: &str)
        requires
            old(self).wf(),
        ensures
            final(self).wf(),
            final(self).source() == old(self).source(),
            final(self)@ == released(old(self)@, key@),
            forall|k: Seq<char>| #[trigger]
                final(self)@.refs.contains_key(k) ==> final(self).payload_at(k) == old(
                    self,
                ).payload_at(k),
    {
        let found = match self.loaded.get(key) {
            Some(entry) => Some((share(&entry.payload), entry.refcount)),
            None => None,
        };
        if let Some((payload, refcount)) = found {
            proof {
                assert(self@.refs.contains_key(key@));
                assert(self@.refs[key@] == refcount);
            }
            if refcount > 1 {
                self.loaded.insert(
                    key.to_owned(),
                    CacheEntry { payload, refcount: refcount - 1 },
                );
            } else {
                self.loaded.remove(key);
            }
        }
        proof {
            assert(self@.refs =~= released(old(self)@, key@).refs);
        }
    }

    /// How many distinct payloads are open.
    pub fn loaded_count(&self) -> (n: usize)
        ensures
            n == self@.refs.dom().len(),
    {
        proof {
            assert(self@.refs.dom() =~= self.loaded@.dom());
        }
        self.loaded.len()
    }

    /// How often the loader has loaded a payload; a payload found in the cache
    /// does not count.
    pub fn load_calls(&self) -> (n: usize)
        ensures
            n == self@.load_calls,
    {
        self.load_calls
    }
}

/// A payload that is referred to and released again is as it was: loaded where it
/// had been, unloaded where it had not.
pub proof fn law_release_undoes_acquire(c: CacheView, key: Seq<char>)
    requires
        c.refs.contains_key(key) ==> c.refs[key] >= 1,
    ensures
        released(acquired(c, key), key).refs == c.refs,
{
    assert(released(acquired(c, key), key).refs =~= c.refs);
}

/// A payload that is loaded is not loaded a second time.
pub proof fn law_loaded_payload_is_shared(c: CacheView, key: Seq<char>)
    ensures
        acquired(acquired(c, key), key).load_calls == acquired(c, key).load_calls,
        c.refs.contains_key(key) ==> acquired(c, key).load_calls == c.load_calls,
{
}

/// A payload is found by its content hash, and by its URI where it has none.
pub proof fn law_payloads_are_found_by_content(geom: GeomRefView)
    ensures
        geom.content_hash.len() > 0 ==> key_of(geom) == geom.content_hash,
        geom.content_hash.len() == 0 ==> key_of(geom) == geom.payload_uri,
{
}

/// A payload that is handed out is referred to once more, and counted as loaded where
/// it was not there. One that is given up is referred to once less, and goes with the
/// last reference. Other payloads are left alone.
pub proof fn law_references_are_counted(c: CacheView, key: Seq<char>, other: Seq<char>)
    requires
        other != key,
        forall|k: Seq<char>| #[trigger] c.refs.contains_key(k) ==> c.refs[k] >= 1,
    ensures
        ({
            let d = acquired(c, key);
            let had: int = if c.refs.contains_key(key) {
                c.refs[key] as int
            } else {
                0
            };
            &&& d.refs.contains_key(key) && d.refs[key] == had + 1
            &&& d.acquisitions == c.acquisitions + 1
            &&& d.load_calls == c.load_calls + if had == 0 {
                1int
            } else {
                0
            }
            &&& d.refs.contains_key(other) == c.refs.contains_key(other)
            &&& d.refs[other] == c.refs[other]
        }),
        ({
            let d = released(c, key);
            &&& d.refs.contains_key(key) <==> c.refs.contains_key(key) && c.refs[key] >= 2
            &&& d.refs.contains_key(key) ==> d.refs[key] == c.refs[key] - 1
            &&& d.acquisitions == c.acquisitions && d.load_calls == c.load_calls
            &&& d.refs.contains_key(other) == c.refs.contains_key(other)
            &&& d.refs[other] == c.refs[other]
        }),
{
}

} // verus!
