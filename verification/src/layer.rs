//! Decoded layer blobs: the decoder turns a `tar`, `tar+gzip` or
//! `tar+zstd` blob into an `ImageLayerInfo` listing every non-directory
//! entry with whiteout markers resolved, and can extract a single file
//! from a layer or from a plain tar archive held in memory.

use vstd::prelude::*;

use crate::error::HTTPError;
use std::io::Read;
use crate::oci_image::{file_views, FileInfoV, ImageFileInfo};
use crate::strops::{
    contains_substr, eq_str, rfind_char, spec_contains_substr, spec_rfind_char, spec_starts_with,
    starts_with_str,
};

verus! {

/// Failures of the layer decoder.
#[derive(Debug, Clone, Copy, PartialEq, Eq, Structural)]
pub enum Error {
    NotFound,
    Read,
    GzipDecode,
    ZstdDecode,
    Tar,
}

impl Error {
    /// A short description, used when the error crosses an API boundary.
    pub fn message(&self) -> (r: String)
        ensures
            r@ == spec_layer_error_message(*self),
    {
        match self {
            Error::NotFound => String::from_str("File not found"),
            Error::Read => String::from_str("Read fail"),
            Error::GzipDecode => String::from_str("Gzip decode fail"),
            Error::ZstdDecode => String::from_str("Zstd decode fail"),
            Error::Tar => String::from_str("Tar fail"),
        }
    }

    /// Map a decoder failure to the shared error value, category `layer`.
    pub fn to_http_error(&self) -> (r: HTTPError)
        ensures
            r.message@ == spec_layer_error_message(*self),
            r.category@ == "layer"@,
    {
        let m = self.message();
        HTTPError::new_with_category(m.as_str(), "layer")
    }
}

/// The description of each decoder failure.
pub open spec fn spec_layer_error_message(e: Error) -> Seq<char> {
    match e {
        Error::NotFound => "File not found"@,
        Error::Read => "Read fail"@,
        Error::GzipDecode => "Gzip decode fail"@,
        Error::ZstdDecode => "Zstd decode fail"@,
        Error::Tar => "Tar fail"@,
    }
}

/// One raw tar entry: the header fields the analyzer reads, plus the
/// entry's contents.
#[derive(Debug, PartialEq)]
pub struct TarEntry {
    pub path: String,
    pub link: Option<String>,
    pub size: u64,
    pub mode: u32,
    pub uid: u64,
    pub gid: u64,
    pub is_dir: bool,
    pub content: Vec<u8>,
}

/// Mathematical model of a raw tar entry.
#[verifier::ext_equal]
pub ghost struct TarEntryV {
    pub path: Seq<char>,
    pub link: Option<Seq<char>>,
    pub size: u64,
    pub mode: u32,
    pub uid: u64,
    pub gid: u64,
    pub is_dir: bool,
    pub content: Seq<u8>,
}

impl View for TarEntry {
    type V = TarEntryV;

    open spec fn view(&self) -> TarEntryV {
        TarEntryV {
            path: self.path@,
            link: match self.link {
                Some(ref l) => Some(l@),
                None => None,
            },
            size: self.size,
            mode: self.mode,
            uid: self.uid,
            gid: self.gid,
            is_dir: self.is_dir,
            content: self.content@,
        }
    }
}

/// Models of a list of raw tar entries.
pub open spec fn tar_entry_views(es: Seq<TarEntry>) -> Seq<TarEntryV> {
    es.map_values(|e: TarEntry| e@)
}

/// The entries a well-formed tar archive holds, in order; no value for a
/// malformed archive.  Determined by the bytes alone.
pub uninterp spec fn tar_entries_of(data: Seq<u8>) -> Option<Seq<TarEntryV>>;

/// The bytes a gzip stream inflates to; no value for a broken stream.
/// Determined by the bytes alone.
pub uninterp spec fn gzip_decode_of(data: Seq<u8>) -> Option<Seq<u8>>;

/// The bytes a zstd frame decompresses to; no value for a broken frame.
/// Determined by the bytes alone.
pub uninterp spec fn zstd_decode_of(data: Seq<u8>) -> Option<Seq<u8>>;

/// The symbolic permission string of a Unix mode word.
pub uninterp spec fn unix_mode_string_of(mode: u32) -> Seq<char>;

/// One raw entry as the archive reader hands it over: path, link target,
/// size, mode, uid, gid, directory flag, contents.
pub type RawEntry = (String, Option<String>, u64, u32, u64, u64, bool, Vec<u8>);

/// The model of a raw entry.
pub open spec fn raw_entry_view(e: RawEntry) -> TarEntryV {
    TarEntryV {
        path: e.0@,
        link: match e.1 {
            Some(ref l) => Some(l@),
            None => None,
        },
        size: e.2,
        mode: e.3,
        uid: e.4,
        gid: e.5,
        is_dir: e.6,
        content: e.7@,
    }
}

/// Models of a list of raw entries.
pub open spec fn raw_entry_views(es: Seq<RawEntry>) -> Seq<TarEntryV> {
    es.map_values(|e: RawEntry| raw_entry_view(e))
}

/// Relies on tar::Archive over an in-memory slice: lists each entry's
/// header fields and contents in archive order; nothing on a malformed
/// archive or an unreadable entry.
#[verifier::external_body]
fn tar_entries_raw(data: &Vec<u8>) -> (r: Option<Vec<RawEntry>>)
    ensures
        match r {
            Some(es) => tar_entries_of(data@) == Some(raw_entry_views(es@)),
            None => tar_entries_of(data@) is None,
        },
{
    let mut out = vec![];
    for f in tar::Archive::new(data.as_slice()).entries().ok()? {
        let mut f = f.ok()?;
        let h = f.header().clone();
        let mut content = vec![];
        f.read_to_end(&mut content).ok()?;
        out.push((f.path().ok()?.to_string_lossy().to_string(), f.link_name().ok()?.map(|v| v.to_string_lossy().to_string()), f.size(), h.mode().ok()?, h.uid().ok()?, h.gid().ok()?, h.entry_type().is_dir(), content));
    }
    Some(out)
}

fn tar_list_entries(data: &Vec<u8>) -> (r: Result<Vec<TarEntry>, Error>)
    ensures
        match r {
            Ok(es) => tar_entries_of(data@) == Some(tar_entry_views(es@)),
            Err(e) => tar_entries_of(data@) is None && e == Error::Tar,
        },
{
    match tar_entries_raw(data) {
        Some(raw) => {
            let mut out: Vec<TarEntry> = Vec::new();
            let mut i: usize = 0;
            while i < raw.len()
                invariant
                    i <= raw@.len(),
                    out@.len() == i,
                    forall|j: int| 0 <= j < i ==> (#[trigger] out@[j])@ == raw_entry_view(raw@[j]),
                decreases raw@.len() - i,
            {
                let e = &raw[i];
                let entry = TarEntry {
                    path: e.0.clone(),
                    link: match &e.1 {
                        Some(l) => Some(l.clone()),
                        None => None,
                    },
                    size: e.2,
                    mode: e.3,
                    uid: e.4,
                    gid: e.5,
                    is_dir: e.6,
                    content: copy_bytes(&e.7),
                };
                proof {
                    assert(entry@ =~= raw_entry_view(raw@[i as int]));
                }
                out.push(entry);
                i = i + 1;
            }
            proof {
                assert(tar_entry_views(out@) =~= raw_entry_views(raw@));
            }
            Ok(out)
        },
        None => Err(Error::Tar),
    }
}

/// Relies on libflate's gzip decoder: inflates the whole stream, failing
/// on a bad header or a corrupt body.
#[verifier::external_body]
fn gunzip(data: &Vec<u8>) -> (r: Result<Vec<u8>, Error>)
    ensures
        match r {
            Ok(out) => gzip_decode_of(data@) == Some(out@),
            Err(e) => gzip_decode_of(data@) is None && e == Error::GzipDecode,
        },
{
    let mut decoder = libflate::gzip::Decoder::new(data.as_slice()).map_err(
        |_| Error::GzipDecode,
    )?;
    let mut out = Vec::new();
    std::io::Read::read_to_end(&mut decoder, &mut out).map_err(|_| Error::GzipDecode)?;
    Ok(out)
}

/// Relies on zstd's streaming decoder: decompresses the whole frame,
/// failing on corrupt input.
#[verifier::external_body]
pub fn zstd_decode(data: &Vec<u8>) -> (r: Result<Vec<u8>, Error>)
    ensures
        match r {
            Ok(out) => zstd_decode_of(data@) == Some(out@),
            Err(e) => zstd_decode_of(data@) is None && e == Error::ZstdDecode,
        },
{
    let mut out = Vec::new();
    zstd::stream::copy_decode(data.as_slice(), &mut out).map_err(|_| Error::ZstdDecode)?;
    Ok(out)
}

/// Relies on unix_mode::to_string: renders a mode word symbolically, from
/// the mode alone.
#[verifier::external_body]
fn mode_to_string(mode: u32) -> (r: String)
    ensures
        r@ == unix_mode_string_of(mode),
{
    unix_mode::to_string(mode)
}

/// A decoded layer: wire size, decompressed size, and the file entries.
#[derive(Debug, PartialEq)]
pub struct ImageLayerInfo {
    pub size: u64,
    pub unpack_size: u64,
    pub files: Vec<ImageFileInfo>,
}

/// Mathematical model of a decoded layer.
#[verifier::ext_equal]
pub ghost struct LayerInfoV {
    pub size: u64,
    pub unpack_size: u64,
    pub files: Seq<FileInfoV>,
}

impl View for ImageLayerInfo {
    type V = LayerInfoV;

    open spec fn view(&self) -> LayerInfoV {
        LayerInfoV { size: self.size, unpack_size: self.unpack_size, files: file_views(self.files@) }
    }
}

/// Normalize an entry path: drop any leading slashes.
pub open spec fn spec_strip_leading_slashes(p: Seq<char>) -> Seq<char>
    decreases p.len(),
{
    if p.len() > 0 && p.first() == '/' {
        spec_strip_leading_slashes(p.subrange(1, p.len() as int))
    } else {
        p
    }
}

/// Resolve a whiteout: when the last path component starts with `.wh.`,
/// strip that prefix once and mark the file as a whiteout.
pub open spec fn spec_whiteout_path(path: Seq<char>) -> (Seq<char>, bool) {
    let start = match spec_rfind_char(path, '/', path.len() as int) {
        Some(i) => i + 1,
        None => 0,
    };
    let name = path.subrange(start, path.len() as int);
    if spec_starts_with(name, ".wh."@) {
        (
            path.subrange(0, start) + name.subrange(".wh."@.len() as int, name.len() as int),
            true,
        )
    } else {
        (path, false)
    }
}

/// The file entry a tar entry decodes to.
pub open spec fn spec_entry_file(e: TarEntryV) -> FileInfoV {
    FileInfoV {
        path: spec_whiteout_path(spec_strip_leading_slashes(e.path)).0,
        link: match e.link {
            Some(l) => l,
            None => Seq::<char>::empty(),
        },
        size: e.size,
        mode: unix_mode_string_of(e.mode),
        uid: e.uid,
        gid: e.gid,
        is_whiteout: if spec_whiteout_path(spec_strip_leading_slashes(e.path)).1 {
            Some(true)
        } else {
            None
        },
    }
}

/// Directories are skipped: both marked directories and paths ending in
/// a slash.
pub open spec fn spec_entry_is_dir(e: TarEntryV) -> bool {
    e.is_dir || (e.path.len() > 0 && e.path.last() == '/')
}

/// The file listing of a sequence of tar entries, in order, directories
/// skipped.
pub open spec fn spec_layer_files(es: Seq<TarEntryV>) -> Seq<FileInfoV>
    decreases es.len(),
{
    if es.len() == 0 {
        Seq::<FileInfoV>::empty()
    } else if spec_entry_is_dir(es.last()) {
        spec_layer_files(es.drop_last())
    } else {
        spec_layer_files(es.drop_last()).push(spec_entry_file(es.last()))
    }
}

/// The decompressed bytes of a blob, selected by media type substring.
pub open spec fn spec_decompressed(data: Seq<u8>, media_type: Seq<char>) -> Option<Seq<u8>> {
    if spec_contains_substr(media_type, "gzip"@) {
        gzip_decode_of(data)
    } else if spec_contains_substr(media_type, "zstd"@) {
        zstd_decode_of(data)
    } else {
        Some(data)
    }
}

/// The decoded layer a blob yields: wire size, decompressed size, and the
/// file listing of its tar entries.
pub open spec fn spec_layer_info(data: Seq<u8>, media_type: Seq<char>) -> Option<LayerInfoV> {
    match spec_decompressed(data, media_type) {
        Some(raw) => match tar_entries_of(raw) {
            Some(es) => Some(
                LayerInfoV {
                    size: data.len() as u64,
                    unpack_size: raw.len() as u64,
                    files: spec_layer_files(es),
                },
            ),
            None => None,
        },
        None => None,
    }
}

/// The error a failing decode reports: the decompression stage's own
/// error, or the tar reader's.
pub open spec fn spec_layer_error(data: Seq<u8>, media_type: Seq<char>) -> Error {
    if spec_contains_substr(media_type, "gzip"@) && gzip_decode_of(data) is None {
        Error::GzipDecode
    } else if !spec_contains_substr(media_type, "gzip"@) && spec_contains_substr(
        media_type,
        "zstd"@,
    ) && zstd_decode_of(data) is None {
        Error::ZstdDecode
    } else {
        Error::Tar
    }
}

/// Normalize one tar entry path as the decoder does: drop leading
/// slashes, then resolve a `.wh.` whiteout prefix on the last component,
/// reporting whether one was stripped.
pub fn effective_path(path: &str) -> (r: (String, bool))
    ensures
        r.0@ == spec_whiteout_path(spec_strip_leading_slashes(path@)).0,
        r.1 == spec_whiteout_path(spec_strip_leading_slashes(path@)).1,
{
    let full = path.unicode_len();
    let mut lead: usize = 0;
    proof {
        assert(path@.subrange(0, full as int) =~= path@);
    }
    while lead < full && path.get_char(lead) == '/'
        invariant
            full == path@.len(),
            lead <= full,
            spec_strip_leading_slashes(path@) == spec_strip_leading_slashes(
                path@.subrange(lead as int, full as int),
            ),
        decreases full - lead,
    {
        proof {
            let rest = path@.subrange(lead as int, full as int);
            assert(rest.first() == path@[lead as int]);
            assert(rest.subrange(1, rest.len() as int) =~= path@.subrange(
                lead + 1,
                full as int,
            ));
        }
        lead = lead + 1;
    }
    proof {
        let rest = path@.subrange(lead as int, full as int);
        if rest.len() > 0 {
            assert(rest.first() == path@[lead as int]);
        }
        assert(spec_strip_leading_slashes(path@) == rest);
    }
    let path = path.substring_char(lead, full);
    let n = path.unicode_len();
    let start = match rfind_char(path, '/') {
        Some(i) => i + 1,
        None => 0,
    };
    let name = path.substring_char(start, n);
    let wh = ".wh.";
    if starts_with_str(name, wh) {
        let whlen = wh.unicode_len();
        let stripped = name.substring_char(whlen, name.unicode_len());
        let prefix = path.substring_char(0, start);
        let combined = String::from_str(prefix).concat(stripped);
        proof {
            assert(combined@ == spec_whiteout_path(path@).0);
        }
        (combined, true)
    } else {
        (String::from_str(path), false)
    }
}

fn files_from_entries(entries: &Vec<TarEntry>) -> (r: Vec<ImageFileInfo>)
    ensures
        file_views(r@) == spec_layer_files(tar_entry_views(entries@)),
{
    let ghost evs = tar_entry_views(entries@);
    let mut files: Vec<ImageFileInfo> = Vec::new();
    let mut i: usize = 0;
    proof {
        assert(evs.subrange(0, 0) =~= Seq::<TarEntryV>::empty());
        assert(file_views(files@) =~= spec_layer_files(evs.subrange(0, 0)));
    }
    while i < entries.len()
        invariant
            i <= entries@.len(),
            evs == tar_entry_views(entries@),
            file_views(files@) == spec_layer_files(evs.subrange(0, i as int)),
        decreases entries@.len() - i,
    {
        proof {
            assert(evs.subrange(0, i + 1).drop_last() =~= evs.subrange(0, i as int));
            assert(evs.subrange(0, i + 1).last() == entries@[i as int]@);
        }
        let e = &entries[i];
        let n = e.path.unicode_len();
        let trailing_slash = if n > 0 {
            e.path.as_str().get_char(n - 1) == '/'
        } else {
            false
        };
        if !e.is_dir && !trailing_slash {
            let wp = effective_path(e.path.as_str());
            let link = match &e.link {
                Some(l) => l.clone(),
                None => String::new(),
            };
            let info = ImageFileInfo {
                path: wp.0,
                link,
                size: e.size,
                mode: mode_to_string(e.mode),
                uid: e.uid,
                gid: e.gid,
                is_whiteout: if wp.1 {
                    Some(true)
                } else {
                    None
                },
            };
            proof {
                assert(!spec_entry_is_dir(entries@[i as int]@));
                assert(info@ =~= spec_entry_file(entries@[i as int]@));
            }
            files.push(info);
            proof {
                assert(file_views(files@) =~= spec_layer_files(evs.subrange(0, i + 1)));
            }
        } else {
            proof {
                assert(spec_entry_is_dir(entries@[i as int]@));
                assert(file_views(files@) =~= spec_layer_files(evs.subrange(0, i + 1)));
            }
        }
        i = i + 1;
    }
    proof {
        assert(evs.subrange(0, entries@.len() as int) =~= evs);
    }
    files
}

/// Decode a layer blob into its file listing.  The media type selects the
/// decompression (`gzip`, `zstd`, or none); `size` is the wire length and
/// `unpack_size` the decompressed length.
pub fn get_files_from_layer(data: &Vec<u8>, media_type: &str) -> (r: Result<ImageLayerInfo, Error>)
    ensures
        match r {
            Ok(info) => spec_layer_info(data@, media_type@) == Some(info@),
            Err(e) => spec_layer_info(data@, media_type@) is None && e == spec_layer_error(
                data@,
                media_type@,
            ),
        },
{
    let size = data.len() as u64;
    if contains_substr(media_type, "gzip") {
        match gunzip(data) {
            Ok(buf) => {
                let unpack_size = buf.len() as u64;
                match tar_list_entries(&buf) {
                    Ok(entries) => {
                        let files = files_from_entries(&entries);
                        let info = ImageLayerInfo { size, unpack_size, files };
                        proof {
                            assert(info@ =~= spec_layer_info(data@, media_type@).unwrap());
                        }
                        Ok(info)
                    },
                    Err(e) => Err(e),
                }
            },
            Err(e) => Err(e),
        }
    } else if contains_substr(media_type, "zstd") {
        match zstd_decode(data) {
            Ok(buf) => {
                let unpack_size = buf.len() as u64;
                match tar_list_entries(&buf) {
                    Ok(entries) => {
                        let files = files_from_entries(&entries);
                        let info = ImageLayerInfo { size, unpack_size, files };
                        proof {
                            assert(info@ =~= spec_layer_info(data@, media_type@).unwrap());
                        }
                        Ok(info)
                    },
                    Err(e) => Err(e),
                }
            },
            Err(e) => Err(e),
        }
    } else {
        match tar_list_entries(data) {
            Ok(entries) => {
                let files = files_from_entries(&entries);
                let info = ImageLayerInfo { size, unpack_size: size, files };
                proof {
                    assert(info@ =~= spec_layer_info(data@, media_type@).unwrap());
                }
                Ok(info)
            },
            Err(e) => Err(e),
        }
    }
}

/// The content of the first entry named `name`: nothing when the archive
/// lacks the name or the entry is empty.
pub open spec fn spec_tar_file_content(es: Seq<TarEntryV>, name: Seq<char>) -> Option<Seq<u8>>
    decreases es.len(),
{
    if es.len() == 0 {
        None
    } else if es.first().path == name {
        if es.first().content.len() == 0 {
            None
        } else {
            Some(es.first().content)
        }
    } else {
        spec_tar_file_content(es.drop_first(), name)
    }
}

/// The header size of the first entry named `name`, zero when absent.
pub open spec fn spec_tar_file_size(es: Seq<TarEntryV>, name: Seq<char>) -> u64
    decreases es.len(),
{
    if es.len() == 0 {
        0
    } else if es.first().path == name {
        es.first().size
    } else {
        spec_tar_file_size(es.drop_first(), name)
    }
}

fn copy_bytes(src: &Vec<u8>) -> (r: Vec<u8>)
    ensures
        r@ == src@,
{
    let mut out: Vec<u8> = Vec::new();
    let mut i: usize = 0;
    while i < src.len()
        invariant
            i <= src@.len(),
            out@ == src@.subrange(0, i as int),
        decreases src@.len() - i,
    {
        out.push(src[i]);
        proof {
            assert(out@ =~= src@.subrange(0, i + 1));
        }
        i = i + 1;
    }
    proof {
        assert(out@ =~= src@);
    }
    out
}

/// Read one file out of a tar archive held in memory.  Reports
/// `NotFound` when no entry carries the name or the entry is empty.
pub fn get_file_content_from_tar(data: &Vec<u8>, filename: &str) -> (r: Result<Vec<u8>, Error>)
    ensures
        match r {
            Ok(content) => tar_entries_of(data@) is Some && spec_tar_file_content(
                tar_entries_of(data@).unwrap(),
                filename@,
            ) == Some(content@),
            Err(Error::NotFound) => tar_entries_of(data@) is Some && spec_tar_file_content(
                tar_entries_of(data@).unwrap(),
                filename@,
            ) is None,
            Err(e) => tar_entries_of(data@) is None && e == Error::Tar,
        },
{
    match tar_list_entries(data) {
        Ok(entries) => {
            let ghost evs = tar_entry_views(entries@);
            let mut i: usize = 0;
            proof {
                assert(evs.subrange(0, evs.len() as int) =~= evs);
            }
            while i < entries.len()
                invariant
                    i <= entries@.len(),
                    evs == tar_entry_views(entries@),
                    tar_entries_of(data@) == Some(evs),
                    spec_tar_file_content(evs, filename@) == spec_tar_file_content(
                        evs.subrange(i as int, evs.len() as int),
                        filename@,
                    ),
                decreases entries@.len() - i,
            {
                let ghost tail = evs.subrange(i as int, evs.len() as int);
                proof {
                    assert(tail.first() == entries@[i as int]@);
                    assert(tail.drop_first() =~= evs.subrange(i + 1, evs.len() as int));
                }
                if eq_str(entries[i].path.as_str(), filename) {
                    if entries[i].content.len() == 0 {
                        return Err(Error::NotFound);
                    }
                    let content = copy_bytes(&entries[i].content);
                    return Ok(content);
                }
                i = i + 1;
            }
            proof {
                assert(evs.subrange(evs.len() as int, evs.len() as int).len() == 0);
            }
            Err(Error::NotFound)
        },
        Err(e) => Err(e),
    }
}

/// Probe the header size of one file of a tar archive held in memory;
/// zero when the name is absent.
pub fn get_file_size_from_tar(data: &Vec<u8>, filename: &str) -> (r: Result<u64, Error>)
    ensures
        match r {
            Ok(size) => tar_entries_of(data@) is Some && size == spec_tar_file_size(
                tar_entries_of(data@).unwrap(),
                filename@,
            ),
            Err(e) => tar_entries_of(data@) is None && e == Error::Tar,
        },
{
    match tar_list_entries(data) {
        Ok(entries) => {
            let ghost evs = tar_entry_views(entries@);
            let mut i: usize = 0;
            proof {
                assert(evs.subrange(0, evs.len() as int) =~= evs);
            }
            while i < entries.len()
                invariant
                    i <= entries@.len(),
                    evs == tar_entry_views(entries@),
                    tar_entries_of(data@) == Some(evs),
                    spec_tar_file_size(evs, filename@) == spec_tar_file_size(
                        evs.subrange(i as int, evs.len() as int),
                        filename@,
                    ),
                decreases entries@.len() - i,
            {
                let ghost tail = evs.subrange(i as int, evs.len() as int);
                proof {
                    assert(tail.first() == entries@[i as int]@);
                    assert(tail.drop_first() =~= evs.subrange(i + 1, evs.len() as int));
                }
                if eq_str(entries[i].path.as_str(), filename) {
                    return Ok(entries[i].size);
                }
                i = i + 1;
            }
            proof {
                assert(evs.subrange(evs.len() as int, evs.len() as int).len() == 0);
            }
            Ok(0)
        },
        Err(e) => Err(e),
    }
}

/// Read one file out of a layer blob: decompress by media type, then
/// search the tar entries.  Success is owed exactly when the blob
/// decompresses, reads as a tar, and holds a non-empty entry of that
/// name; each failure reports its own stage.
pub fn get_file_content_from_layer(data: &Vec<u8>, media_type: &str, filename: &str) -> (r: Result<
    Vec<u8>,
    Error,
>)
    ensures
        match r {
            Ok(content) => ({
                &&& spec_decompressed(data@, media_type@) is Some
                &&& tar_entries_of(spec_decompressed(data@, media_type@).unwrap()) is Some
                &&& spec_tar_file_content(
                    tar_entries_of(spec_decompressed(data@, media_type@).unwrap()).unwrap(),
                    filename@,
                ) == Some(content@)
            }),
            Err(e) => match spec_decompressed(data@, media_type@) {
                Some(raw) => match tar_entries_of(raw) {
                    Some(es) => spec_tar_file_content(es, filename@) is None && e
                        == Error::NotFound,
                    None => e == Error::Tar,
                },
                None => e == spec_layer_error(data@, media_type@),
            },
        },
{
    if contains_substr(media_type, "gzip") {
        match gunzip(data) {
            Ok(buf) => get_file_content_from_tar(&buf, filename),
            Err(e) => Err(e),
        }
    } else if contains_substr(media_type, "zstd") {
        match zstd_decode(data) {
            Ok(buf) => get_file_content_from_tar(&buf, filename),
            Err(e) => Err(e),
        }
    } else {
        get_file_content_from_tar(data, filename)
    }
}

/// Decoding a gzip-compressed layer agrees with decoding its inflated
/// bytes as a plain tar: the same files in the same order, and the same
/// decompressed size.
pub proof fn lemma_decode_gzip_layer_agrees(
    gz: Seq<u8>,
    raw: Seq<u8>,
    mt_gz: Seq<char>,
    mt_raw: Seq<char>,
)
    requires
        gzip_decode_of(gz) == Some(raw),
        spec_contains_substr(mt_gz, "gzip"@),
        !spec_contains_substr(mt_raw, "gzip"@),
        !spec_contains_substr(mt_raw, "zstd"@),
    ensures
        match (spec_layer_info(gz, mt_gz), spec_layer_info(raw, mt_raw)) {
            (Some(a), Some(b)) => a.files == b.files && a.unpack_size == b.unpack_size,
            (None, None) => true,
            _ => false,
        },
{
}

/// Decoding a zstd-compressed layer agrees with decoding its
/// decompressed bytes as a plain tar.
pub proof fn lemma_decode_zstd_layer_agrees(
    zs: Seq<u8>,
    raw: Seq<u8>,
    mt_zs: Seq<char>,
    mt_raw: Seq<char>,
)
    requires
        zstd_decode_of(zs) == Some(raw),
        !spec_contains_substr(mt_zs, "gzip"@),
        spec_contains_substr(mt_zs, "zstd"@),
        !spec_contains_substr(mt_raw, "gzip"@),
        !spec_contains_substr(mt_raw, "zstd"@),
    ensures
        match (spec_layer_info(zs, mt_zs), spec_layer_info(raw, mt_raw)) {
            (Some(a), Some(b)) => a.files == b.files && a.unpack_size == b.unpack_size,
            (None, None) => true,
            _ => false,
        },
{
}

} // verus!
