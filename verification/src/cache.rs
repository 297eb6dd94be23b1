//! Bounded caches for bearer tokens and fetched manifests, backed by an
//! LRU map of fixed capacity.  The analyzer consults them before going to
//! the network; stale manifest entries count as misses.

use vstd::prelude::*;

use crate::docker::DockerTokenInfo;
use crate::oci_image::{ImageManifest, ManifestV};

verus! {

#[verifier::external_type_specification]
#[verifier::external_body]
#[verifier::reject_recursive_types(K)]
#[verifier::reject_recursive_types(V)]
#[verifier::reject_recursive_types(S)]
pub struct ExLruCache<K, V, S>(lru::LruCache<K, V, S>);

/// The LRU map under the token cache.
pub type TokenLru = lru::LruCache<String, DockerTokenInfo, std::collections::hash_map::RandomState>;

/// The LRU map under the manifest cache.
pub type ManifestLru = lru::LruCache<
    String,
    ImageManifestCacheInfo,
    std::collections::hash_map::RandomState,
>;

/// The token entries an LRU cache holds, keyed by token URL.
pub uninterp spec fn token_cache_map(c: TokenLru) -> Map<
    Seq<char>,
    DockerTokenInfo,
>;

/// The capacity a token cache was created with.
pub uninterp spec fn token_cache_cap(c: TokenLru) -> int;

/// Relies on lru::LruCache::new: an empty cache of the given capacity.
#[verifier::external_body]
fn lru_new_token(cap: usize) -> (r: TokenLru)
    requires
        cap >= 1,
    ensures
        token_cache_map(r) =~= Map::empty(),
        token_cache_cap(r) == cap,
{
    lru::LruCache::with_hasher(
        std::num::NonZeroUsize::new(cap).unwrap(),
        std::collections::hash_map::RandomState::new(),
    )
}

/// Relies on lru::LruCache::get: hands back the entry under the key and
/// only moves it to the front; the contents stay unchanged.
#[verifier::external_body]
fn lru_get_token(c: &mut TokenLru, key: &String) -> (r: Option<
    DockerTokenInfo,
>)
    ensures
        token_cache_map(*final(c)) == token_cache_map(*old(c)),
        token_cache_cap(*final(c)) == token_cache_cap(*old(c)),
        r == if token_cache_map(*old(c)).contains_key(key@) {
            Some(token_cache_map(*old(c))[key@])
        } else {
            None::<DockerTokenInfo>
        },
{
    c.get(key).cloned()
}

/// Relies on lru::LruCache::put: stores the value under the key; when the
/// cache is full an unspecified other entry leaves, and the rest keep
/// their values.
#[verifier::external_body]
fn lru_put_token(c: &mut TokenLru, key: String, value: DockerTokenInfo)
    ensures
        token_cache_cap(*final(c)) == token_cache_cap(*old(c)),
        token_cache_map(*final(c)).contains_key(key@),
        token_cache_map(*final(c))[key@] == value,
        forall|k: Seq<char>|
            #[trigger] token_cache_map(*final(c)).contains_key(k) && k != key@
                ==> token_cache_map(*old(c)).contains_key(k) && token_cache_map(*final(c))[k]
                == token_cache_map(*old(c))[k],
{
    let _ = c.put(key, value);
}

/// The bounded token cache, keyed by the full token URL.
pub struct TokenCache {
    cache: TokenLru,
}

impl TokenCache {
    /// The entries currently cached.
    pub closed spec fn view(&self) -> Map<Seq<char>, DockerTokenInfo> {
        token_cache_map(self.cache)
    }

    /// An empty cache holding at most one hundred tokens.
    pub fn new() -> (r: Self)
        ensures
            r@ == Map::<Seq<char>, DockerTokenInfo>::empty(),
    {
        TokenCache { cache: lru_new_token(100) }
    }
}

/// Look a token up by its URL; the contents do not change.
pub fn get_docker_token_from_cache(cache: &mut TokenCache, key: &String) -> (r: Option<
    DockerTokenInfo,
>)
    ensures
        final(cache)@ == old(cache)@,
        r == if old(cache)@.contains_key(key@) {
            Some(old(cache)@[key@])
        } else {
            None::<DockerTokenInfo>
        },
{
    lru_get_token(&mut cache.cache, key)
}

/// Store a token under its URL.  The new entry is present afterwards;
/// every other surviving entry keeps its value.
pub fn set_docker_token_to_cache(cache: &mut TokenCache, key: &String, info: DockerTokenInfo)
    ensures
        final(cache)@.contains_key(key@),
        final(cache)@[key@] == info,
        forall|k: Seq<char>|
            #[trigger] final(cache)@.contains_key(k) && k != key@ ==> old(cache)@.contains_key(k)
                && final(cache)@[k] == old(cache)@[k],
{
    lru_put_token(&mut cache.cache, key.clone(), info);
}

/// A cached manifest: its expiry time and its model.
#[verifier::ext_equal]
pub ghost struct ManifestCacheV {
    pub expired_at: i64,
    pub manifest: ManifestV,
}

/// A fetched manifest with the time it goes stale.
#[derive(Debug, PartialEq)]
pub struct ImageManifestCacheInfo {
    pub expired_at: i64,
    pub manifest: ImageManifest,
}

impl View for ImageManifestCacheInfo {
    type V = ManifestCacheV;

    open spec fn view(&self) -> ManifestCacheV {
        ManifestCacheV { expired_at: self.expired_at, manifest: self.manifest@ }
    }
}

impl Clone for ImageManifestCacheInfo {
    fn clone(&self) -> (r: Self)
        ensures
            r@ == self@,
    {
        let r = ImageManifestCacheInfo {
            expired_at: self.expired_at,
            manifest: self.manifest.clone(),
        };
        proof {
            assert(r.manifest@ =~= self.manifest@);
        }
        r
    }
}

/// The manifest entries an LRU cache holds, by model, keyed by URL and
/// architecture.
pub uninterp spec fn manifest_cache_map(c: ManifestLru) -> Map<
    Seq<char>,
    ManifestCacheV,
>;

/// The capacity a manifest cache was created with.
pub uninterp spec fn manifest_cache_cap(c: ManifestLru) -> int;

/// Relies on lru::LruCache::new: an empty cache of the given capacity.
#[verifier::external_body]
fn lru_new_manifest(cap: usize) -> (r: ManifestLru)
    requires
        cap >= 1,
    ensures
        manifest_cache_map(r) =~= Map::empty(),
        manifest_cache_cap(r) == cap,
{
    lru::LruCache::with_hasher(
        std::num::NonZeroUsize::new(cap).unwrap(),
        std::collections::hash_map::RandomState::new(),
    )
}

/// Relies on lru::LruCache::get: hands back a copy of the entry under the
/// key, faithful to its model; the contents stay unchanged.
#[verifier::external_body]
fn lru_get_manifest(c: &mut ManifestLru, key: &String) -> (r:
    Option<ImageManifestCacheInfo>)
    ensures
        manifest_cache_map(*final(c)) == manifest_cache_map(*old(c)),
        manifest_cache_cap(*final(c)) == manifest_cache_cap(*old(c)),
        match r {
            Some(info) => manifest_cache_map(*old(c)).contains_key(key@) && info@
                == manifest_cache_map(*old(c))[key@],
            None => !manifest_cache_map(*old(c)).contains_key(key@),
        },
{
    c.get(key).cloned()
}

/// Relies on lru::LruCache::push: stores the value under the key; when
/// the cache is full an unspecified other entry leaves, and the rest
/// keep their values.
#[verifier::external_body]
fn lru_put_manifest(c: &mut ManifestLru, key: String, value: ImageManifestCacheInfo)
    ensures
        manifest_cache_cap(*final(c)) == manifest_cache_cap(*old(c)),
        manifest_cache_map(*final(c)).contains_key(key@),
        manifest_cache_map(*final(c))[key@] == value@,
        forall|k: Seq<char>|
            #[trigger] manifest_cache_map(*final(c)).contains_key(k) && k != key@
                ==> manifest_cache_map(*old(c)).contains_key(k) && manifest_cache_map(
                *final(c),
            )[k] == manifest_cache_map(*old(c))[k],
{
    let _ = c.push(key, value);
}

/// The bounded manifest cache, keyed by URL and architecture.
pub struct ManifestCache {
    cache: ManifestLru,
}

impl ManifestCache {
    /// The entries currently cached.
    pub closed spec fn view(&self) -> Map<Seq<char>, ManifestCacheV> {
        manifest_cache_map(self.cache)
    }

    /// An empty cache holding at most one hundred manifests.
    pub fn new() -> (r: Self)
        ensures
            r@ == Map::<Seq<char>, ManifestCacheV>::empty(),
    {
        ManifestCache { cache: lru_new_manifest(100) }
    }
}

/// Look a manifest up; an entry past its expiry counts as a miss.  The
/// contents do not change.
pub fn get_manifest_from_cache(cache: &mut ManifestCache, key: &String, now: i64) -> (r: Option<
    ImageManifest,
>)
    ensures
        final(cache)@ == old(cache)@,
        match r {
            Some(m) => old(cache)@.contains_key(key@) && old(cache)@[key@].expired_at > now && m@
                == old(cache)@[key@].manifest,
            None => !old(cache)@.contains_key(key@) || old(cache)@[key@].expired_at <= now,
        },
{
    match lru_get_manifest(&mut cache.cache, key) {
        Some(info) => {
            if info.expired_at > now {
                Some(info.manifest)
            } else {
                None
            }
        },
        None => None,
    }
}

/// Store a manifest with a time to live, measured from `now`.
pub fn set_manifest_to_cache(
    cache: &mut ManifestCache,
    key: &String,
    manifest: ImageManifest,
    ttl_seconds: i64,
    now: i64,
)
    requires
        0 <= ttl_seconds,
        now + ttl_seconds <= i64::MAX,
    ensures
        final(cache)@.contains_key(key@),
        final(cache)@[key@] == (ManifestCacheV { expired_at: (now + ttl_seconds) as i64, manifest: manifest@ }),
        forall|k: Seq<char>|
            #[trigger] final(cache)@.contains_key(k) && k != key@ ==> old(cache)@.contains_key(k)
                && final(cache)@[k] == old(cache)@[k],
{
    let info = ImageManifestCacheInfo { expired_at: now + ttl_seconds, manifest };
    lru_put_manifest(&mut cache.cache, key.clone(), info);
}

} // verus!

verus! {

/// The token a fetch can reuse: the cached entry under the URL, provided
/// it has not expired at time `now`.  The contents do not change.
pub fn cached_token(cache: &mut TokenCache, key: &String, now: i64) -> (r: Option<String>)
    ensures
        final(cache)@ == old(cache)@,
        match r {
            Some(t) => old(cache)@.contains_key(key@) && !crate::docker::spec_token_expired(
                old(cache)@[key@],
                now,
            ) && t == old(cache)@[key@].token,
            None => !old(cache)@.contains_key(key@) || crate::docker::spec_token_expired(
                old(cache)@[key@],
                now,
            ),
        },
{
    match get_docker_token_from_cache(cache, key) {
        Some(info) => {
            if !info.expired(now) {
                Some(info.token)
            } else {
                None
            }
        },
        None => None,
    }
}

} // verus!
