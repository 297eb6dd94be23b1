//! The content-addressed blob store's decisions: the file a digest lives
//! in, and which cached blobs a TTL sweep removes.  The filesystem walk
//! itself stays outside the library; it hands entries in and deletes what
//! the sweep names.

use vstd::prelude::*;

use crate::error::HTTPError;

verus! {

/// Failures of the blob store.
#[derive(Debug, Clone, Copy, PartialEq, Eq, Structural)]
pub enum Error {
    Write,
    Read,
    Pattern,
    IO,
}

/// The description of each blob store failure.
pub open spec fn spec_blob_error_message(e: Error) -> Seq<char> {
    match e {
        Error::Write => "Write file fail"@,
        Error::Read => "Read file fail"@,
        Error::Pattern => "Glob fail"@,
        Error::IO => "IO fail"@,
    }
}

impl Error {
    /// A short description, used when the error crosses an API boundary.
    pub fn message(&self) -> (r: String)
        ensures
            r@ == spec_blob_error_message(*self),
    {
        match self {
            Error::Write => String::from_str("Write file fail"),
            Error::Read => String::from_str("Read file fail"),
            Error::Pattern => String::from_str("Glob fail"),
            Error::IO => String::from_str("IO fail"),
        }
    }

    /// Map a blob store failure to the shared error value, category
    /// `blob`.
    pub fn to_http_error(&self) -> (r: HTTPError)
        ensures
            r.message@ == spec_blob_error_message(*self),
            r.category@ == "blob"@,
    {
        let m = self.message();
        HTTPError::new_with_category(m.as_str(), "blob")
    }
}

/// The file a digest is stored in: the digest string itself, under the
/// layer directory.
pub fn blob_file_path(layer_path: &str, digest: &str) -> (r: String)
    ensures
        r@ == layer_path@ + "/"@ + digest@,
{
    String::from_str(layer_path).concat("/").concat(digest)
}

/// One cached blob file as the sweep sees it: its name and the access
/// and modification times the filesystem reports, when it reports them.
#[derive(Debug, PartialEq)]
pub struct BlobEntry {
    pub name: String,
    pub atime: Option<i64>,
    pub mtime: Option<i64>,
}

impl Clone for BlobEntry {
    fn clone(&self) -> (r: Self)
        ensures
            r == *self,
    {
        BlobEntry {
            name: self.name.clone(),
            atime: if let Some(a) = self.atime {
                Some(a)
            } else {
                None
            },
            mtime: if let Some(m) = self.mtime {
                Some(m)
            } else {
                None
            },
        }
    }
}

/// Mathematical model of a blob entry.
#[verifier::ext_equal]
pub ghost struct BlobEntryV {
    pub name: Seq<char>,
    pub atime: Option<i64>,
    pub mtime: Option<i64>,
}

impl View for BlobEntry {
    type V = BlobEntryV;

    open spec fn view(&self) -> BlobEntryV {
        BlobEntryV { name: self.name@, atime: self.atime, mtime: self.mtime }
    }
}

/// Models of a list of blob entries.
pub open spec fn blob_views(es: Seq<BlobEntry>) -> Seq<BlobEntryV> {
    es.map_values(|e: BlobEntry| e@)
}

/// A blob is expired when the latest of its known times is at or before
/// the expiry instant; a blob with no readable time is kept.
pub open spec fn spec_blob_expired(e: BlobEntryV, expired: i64) -> bool {
    match (e.atime, e.mtime) {
        (Some(a), Some(m)) => (if a >= m {
            a
        } else {
            m
        }) <= expired,
        (Some(a), None) => a <= expired,
        (None, Some(m)) => m <= expired,
        (None, None) => false,
    }
}

/// Whether the sweep removes this blob.
pub fn blob_expired(e: &BlobEntry, expired: i64) -> (r: bool)
    ensures
        r == spec_blob_expired(e@, expired),
{
    match (e.atime, e.mtime) {
        (Some(a), Some(m)) => (if a >= m {
            a
        } else {
            m
        }) <= expired,
        (Some(a), None) => a <= expired,
        (None, Some(m)) => m <= expired,
        (None, None) => false,
    }
}

/// The entries a sweep removes, in order.
pub open spec fn spec_sweep_removed(es: Seq<BlobEntryV>, expired: i64) -> Seq<BlobEntryV>
    decreases es.len(),
{
    if es.len() == 0 {
        Seq::<BlobEntryV>::empty()
    } else if spec_blob_expired(es.last(), expired) {
        spec_sweep_removed(es.drop_last(), expired).push(es.last())
    } else {
        spec_sweep_removed(es.drop_last(), expired)
    }
}

/// The entries a sweep keeps, in order.
pub open spec fn spec_sweep_kept(es: Seq<BlobEntryV>, expired: i64) -> Seq<BlobEntryV>
    decreases es.len(),
{
    if es.len() == 0 {
        Seq::<BlobEntryV>::empty()
    } else if spec_blob_expired(es.last(), expired) {
        spec_sweep_kept(es.drop_last(), expired)
    } else {
        spec_sweep_kept(es.drop_last(), expired).push(es.last())
    }
}

/// Partition cached blobs into those a TTL sweep removes and those it
/// keeps.
pub fn sweep_blob_entries(entries: &Vec<BlobEntry>, expired: i64) -> (r: (Vec<BlobEntry>, Vec<
    BlobEntry,
>))
    ensures
        blob_views(r.0@) == spec_sweep_removed(blob_views(entries@), expired),
        blob_views(r.1@) == spec_sweep_kept(blob_views(entries@), expired),
{
    let ghost evs = blob_views(entries@);
    let mut removed: Vec<BlobEntry> = Vec::new();
    let mut kept: Vec<BlobEntry> = Vec::new();
    let mut i: usize = 0;
    proof {
        assert(evs.subrange(0, 0) =~= Seq::<BlobEntryV>::empty());
        assert(blob_views(removed@) =~= spec_sweep_removed(evs.subrange(0, 0), expired));
        assert(blob_views(kept@) =~= spec_sweep_kept(evs.subrange(0, 0), expired));
    }
    while i < entries.len()
        invariant
            i <= entries@.len(),
            evs == blob_views(entries@),
            blob_views(removed@) == spec_sweep_removed(evs.subrange(0, i as int), expired),
            blob_views(kept@) == spec_sweep_kept(evs.subrange(0, i as int), expired),
        decreases entries@.len() - i,
    {
        proof {
            assert(evs.subrange(0, i + 1).drop_last() =~= evs.subrange(0, i as int));
            assert(evs.subrange(0, i + 1).last() == entries@[i as int]@);
        }
        if blob_expired(&entries[i], expired) {
            removed.push(entries[i].clone());
            proof {
                assert(blob_views(removed@) =~= spec_sweep_removed(
                    evs.subrange(0, i + 1),
                    expired,
                ));
                assert(blob_views(kept@) =~= spec_sweep_kept(evs.subrange(0, i + 1), expired));
            }
        } else {
            kept.push(entries[i].clone());
            proof {
                assert(blob_views(removed@) =~= spec_sweep_removed(
                    evs.subrange(0, i + 1),
                    expired,
                ));
                assert(blob_views(kept@) =~= spec_sweep_kept(evs.subrange(0, i + 1), expired));
            }
        }
        i = i + 1;
    }
    proof {
        assert(evs.subrange(0, entries@.len() as int) =~= evs);
    }
    (removed, kept)
}

/// A second sweep over what the first kept, with the same expiry
/// instant, removes nothing.
pub proof fn lemma_sweep_idempotent(es: Seq<BlobEntryV>, expired: i64)
    ensures
        spec_sweep_removed(spec_sweep_kept(es, expired), expired) =~= Seq::<BlobEntryV>::empty(),
    decreases es.len(),
{
    if es.len() > 0 {
        lemma_sweep_idempotent(es.drop_last(), expired);
        if !spec_blob_expired(es.last(), expired) {
            let kept = spec_sweep_kept(es.drop_last(), expired).push(es.last());
            assert(kept.drop_last() =~= spec_sweep_kept(es.drop_last(), expired));
        }
    }
}

/// The instant before which a blob counts as expired: `ttl` seconds
/// before `now`, clamped at the representable minimum.
pub open spec fn spec_sweep_expired_at(now: i64, ttl_secs: u64) -> int {
    if now - ttl_secs >= i64::MIN {
        now - ttl_secs
    } else {
        i64::MIN as int
    }
}

pub fn sweep_expired_at(now: i64, ttl_secs: u64) -> (r: i64)
    ensures
        r == spec_sweep_expired_at(now, ttl_secs),
{
    let wide: i128 = (now as i128) - (ttl_secs as i128);
    if wide >= i64::MIN as i128 {
        wide as i64
    } else {
        i64::MIN
    }
}

} // verus!
