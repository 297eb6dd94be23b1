//! Data model of OCI / Docker v2 images: index, manifest, config, decoded
//! file entries, and the per-layer file tree, together with the verified
//! tree search used by the diff engine.

use vstd::prelude::*;

use crate::error::HTTPError;
use crate::strops::{contains_substr, eq_str, lemma_split_len, spec_contains_substr, spec_split, split_chars};
use std::collections::HashMap;

verus! {

broadcast use vstd::std_specs::vec::axiom_vec_index_decreases;

pub const MEDIA_TYPE_IMAGE_INDEX: &'static str = "application/vnd.oci.image.index.v1+json";

pub const MEDIA_TYPE_DOCKER_SCHEMA2_MANIFEST: &'static str =
    "application/vnd.docker.distribution.manifest.v2+json";

pub const MEDIA_TYPE_MANIFEST_LIST: &'static str =
    "application/vnd.docker.distribution.manifest.list.v2+json";

/// One file enumerated from a decoded layer: normalized path, link target,
/// size in bytes, symbolic mode, owner ids, and the whiteout marker.
#[derive(Debug, PartialEq)]
pub struct ImageFileInfo {
    pub path: String,
    pub link: String,
    pub size: u64,
    pub mode: String,
    pub uid: u64,
    pub gid: u64,
    pub is_whiteout: Option<bool>,
}

impl Clone for ImageFileInfo {
    fn clone(&self) -> (r: Self)
        ensures
            r == *self,
    {
        ImageFileInfo {
            path: self.path.clone(),
            link: self.link.clone(),
            size: self.size,
            mode: self.mode.clone(),
            uid: self.uid,
            gid: self.gid,
            is_whiteout: if let Some(b) = self.is_whiteout {
                Some(b)
            } else {
                None
            },
        }
    }
}

/// One layer of the analysis result, aligned with the image config history.
#[derive(Debug, PartialEq)]
pub struct ImageLayer {
    pub created: String,
    pub digest: String,
    pub cmd: String,
    pub size: u64,
    pub media_type: String,
    pub unpack_size: u64,
    pub empty: bool,
}

impl Clone for ImageLayer {
    fn clone(&self) -> (r: Self)
        ensures
            r == *self,
    {
        ImageLayer {
            created: self.created.clone(),
            digest: self.digest.clone(),
            cmd: self.cmd.clone(),
            size: self.size,
            media_type: self.media_type.clone(),
            unpack_size: self.unpack_size,
            empty: self.empty,
        }
    }
}

/// Operation recorded for a file or directory in a layer's tree.
#[derive(Debug, Clone, Copy, PartialEq, Eq, Structural)]
pub enum Op {
    Unchanged,
    Removed,
    Modified,
    Added,
}

/// A modification or removal found for a non-base layer.
#[derive(Debug, PartialEq)]
pub struct ImageFileSummary {
    pub layer_index: usize,
    pub op: Op,
    pub info: ImageFileInfo,
}

impl Clone for ImageFileSummary {
    fn clone(&self) -> (r: Self)
        ensures
            r == *self,
    {
        ImageFileSummary { layer_index: self.layer_index, op: self.op, info: self.info.clone() }
    }
}

/// Mathematical model of a file entry.
#[verifier::ext_equal]
pub ghost struct FileInfoV {
    pub path: Seq<char>,
    pub link: Seq<char>,
    pub size: u64,
    pub mode: Seq<char>,
    pub uid: u64,
    pub gid: u64,
    pub is_whiteout: Option<bool>,
}

impl View for ImageFileInfo {
    type V = FileInfoV;

    open spec fn view(&self) -> FileInfoV {
        FileInfoV {
            path: self.path@,
            link: self.link@,
            size: self.size,
            mode: self.mode@,
            uid: self.uid,
            gid: self.gid,
            is_whiteout: self.is_whiteout,
        }
    }
}

/// Mathematical model of a summary entry.
#[verifier::ext_equal]
pub ghost struct SummaryV {
    pub layer_index: usize,
    pub op: Op,
    pub info: FileInfoV,
}

impl View for ImageFileSummary {
    type V = SummaryV;

    open spec fn view(&self) -> SummaryV {
        SummaryV { layer_index: self.layer_index, op: self.op, info: self.info@ }
    }
}

/// Models of a list of file entries.
pub open spec fn file_views(files: Seq<ImageFileInfo>) -> Seq<FileInfoV> {
    files.map_values(|f: ImageFileInfo| f@)
}

/// Models of a list of summary entries.
pub open spec fn summary_views(list: Seq<ImageFileSummary>) -> Seq<SummaryV> {
    list.map_values(|s: ImageFileSummary| s@)
}

/// Platform of one entry in an image index.
#[derive(Debug, PartialEq)]
pub struct ImageIndexPlatform {
    pub architecture: String,
    pub os: String,
    pub variant: Option<String>,
}

impl Clone for ImageIndexPlatform {
    fn clone(&self) -> (r: Self)
        ensures
            r == *self,
    {
        ImageIndexPlatform {
            architecture: self.architecture.clone(),
            os: self.os.clone(),
            variant: match &self.variant {
                Some(v) => Some(v.clone()),
                None => None,
            },
        }
    }
}

/// Annotations of one entry in an image index.
#[derive(Debug, PartialEq)]
pub struct ImageIndexAnnotations {
    pub vnd_docker_reference_digest: String,
    pub vnd_docker_reference_type: String,
}

impl Clone for ImageIndexAnnotations {
    fn clone(&self) -> (r: Self)
        ensures
            r == *self,
    {
        ImageIndexAnnotations {
            vnd_docker_reference_digest: self.vnd_docker_reference_digest.clone(),
            vnd_docker_reference_type: self.vnd_docker_reference_type.clone(),
        }
    }
}

/// One per-platform manifest descriptor of an image index.
#[derive(Debug, PartialEq)]
pub struct ImageIndexManifest {
    pub media_type: String,
    pub digest: String,
    pub size: i64,
    pub platform: ImageIndexPlatform,
    pub annotations: Option<ImageIndexAnnotations>,
}

impl Clone for ImageIndexManifest {
    fn clone(&self) -> (r: Self)
        ensures
            r == *self,
    {
        ImageIndexManifest {
            media_type: self.media_type.clone(),
            digest: self.digest.clone(),
            size: self.size,
            platform: self.platform.clone(),
            annotations: match &self.annotations {
                Some(a) => Some(a.clone()),
                None => None,
            },
        }
    }
}

/// An OCI image index (manifest list): one descriptor per platform.
#[derive(Debug, PartialEq)]
pub struct ImageIndex {
    pub media_type: String,
    pub schema_version: i64,
    pub manifests: Vec<ImageIndexManifest>,
}

/// Config descriptor of an image manifest.
#[derive(Debug, PartialEq)]
pub struct ImageManifestConfig {
    pub media_type: String,
    pub digest: String,
    pub size: i64,
}

impl Clone for ImageManifestConfig {
    fn clone(&self) -> (r: Self)
        ensures
            r == *self,
    {
        ImageManifestConfig {
            media_type: self.media_type.clone(),
            digest: self.digest.clone(),
            size: self.size,
        }
    }
}

/// One layer descriptor of an image manifest.
#[derive(Debug, PartialEq)]
pub struct ImageManifestLayer {
    pub media_type: String,
    pub digest: String,
    pub size: u64,
}

impl Clone for ImageManifestLayer {
    fn clone(&self) -> (r: Self)
        ensures
            r == *self,
    {
        ImageManifestLayer {
            media_type: self.media_type.clone(),
            digest: self.digest.clone(),
            size: self.size,
        }
    }
}

/// A Docker v2 / OCI image manifest: config descriptor plus ordered layers.
#[derive(Debug, PartialEq)]
pub struct ImageManifest {
    pub media_type: String,
    pub schema_version: i64,
    pub config: ImageManifestConfig,
    pub layers: Vec<ImageManifestLayer>,
}

impl Clone for ImageManifest {
    fn clone(&self) -> (r: Self)
        ensures
            r.media_type == self.media_type,
            r.schema_version == self.schema_version,
            r.config == self.config,
            r.layers@ == self.layers@,
    {
        let mut layers: Vec<ImageManifestLayer> = Vec::new();
        let mut i: usize = 0;
        while i < self.layers.len()
            invariant
                i <= self.layers.len(),
                layers@ == self.layers@.subrange(0, i as int),
            decreases self.layers.len() - i,
        {
            layers.push(self.layers[i].clone());
            proof {
                assert(layers@ =~= self.layers@.subrange(0, i + 1));
            }
            i = i + 1;
        }
        proof {
            assert(layers@ =~= self.layers@);
        }
        ImageManifest {
            media_type: self.media_type.clone(),
            schema_version: self.schema_version,
            config: self.config.clone(),
            layers,
        }
    }
}

/// Extra image config fields surfaced to clients.
#[derive(Debug, Clone, PartialEq)]
pub struct ImageExtraInfo {
    pub user: Option<String>,
    pub env: Option<Vec<String>>,
    pub labels: Option<HashMap<String, String>>,
}

/// One history entry of an image config.
#[derive(Debug, PartialEq)]
pub struct ImageHistory {
    pub created: String,
    pub created_by: Option<String>,
    pub empty_layer: Option<bool>,
    pub comment: Option<String>,
}

impl Clone for ImageHistory {
    fn clone(&self) -> (r: Self)
        ensures
            r == *self,
    {
        ImageHistory {
            created: self.created.clone(),
            created_by: match &self.created_by {
                Some(v) => Some(v.clone()),
                None => None,
            },
            empty_layer: if let Some(b) = self.empty_layer {
                Some(b)
            } else {
                None
            },
            comment: match &self.comment {
                Some(v) => Some(v.clone()),
                None => None,
            },
        }
    }
}

/// Root filesystem description of an image config.
#[derive(Debug, Clone, PartialEq)]
pub struct ImageRootfs {
    pub type_field: String,
    pub diff_ids: Vec<String>,
}

/// An image config blob: platform, build history and rootfs diff ids.
#[derive(Debug, Clone, PartialEq)]
pub struct ImageConfig {
    pub architecture: String,
    pub created: String,
    pub history: Vec<ImageHistory>,
    pub os: String,
    pub rootfs: ImageRootfs,
    pub config: Option<ImageExtraInfo>,
}

/// A node of a layer's file tree.  A directory's `size` is the sum of the
/// sizes of the files inserted beneath it.
#[derive(Debug, PartialEq)]
pub struct FileTreeItem {
    pub name: String,
    pub link: String,
    pub size: u64,
    pub mode: String,
    pub uid: u64,
    pub gid: u64,
    pub op: Op,
    pub children: Vec<FileTreeItem>,
}

/// Mathematical model of a file tree node.
#[verifier::ext_equal]
pub ghost struct FileNode {
    pub name: Seq<char>,
    pub link: Seq<char>,
    pub size: u64,
    pub mode: Seq<char>,
    pub uid: u64,
    pub gid: u64,
    pub op: Op,
    pub children: Seq<FileNode>,
}

/// The model of a tree item: every string becomes a character sequence and
/// the children vector becomes a sequence of models.
pub open spec fn node_view(item: FileTreeItem) -> FileNode
    decreases item,
{
    FileNode {
        name: item.name@,
        link: item.link@,
        size: item.size,
        mode: item.mode@,
        uid: item.uid,
        gid: item.gid,
        op: item.op,
        children: Seq::new(
            item.children@.len(),
            |i: int|
                if 0 <= i < item.children@.len() {
                    node_view(item.children@[i])
                } else {
                    arbitrary()
                },
        ),
    }
}

impl View for FileTreeItem {
    type V = FileNode;

    open spec fn view(&self) -> FileNode {
        node_view(*self)
    }
}

/// Model of a forest of tree nodes.
pub open spec fn nodes_of(items: Seq<FileTreeItem>) -> Seq<FileNode> {
    Seq::new(items.len(), |i: int| items[i]@)
}

impl Clone for FileTreeItem {
    fn clone(&self) -> (r: Self)
        ensures
            r@ == self@,
        decreases self,
    {
        let mut children: Vec<FileTreeItem> = Vec::new();
        let mut i: usize = 0;
        while i < self.children.len()
            invariant
                i <= self.children.len(),
                children@.len() == i,
                forall|j: int| 0 <= j < i ==> #[trigger] children@[j]@ == self.children@[j]@,
            decreases self.children.len() - i,
        {
            proof {
                assert(decreases_to!(*self => self.children@[i as int]));
            }
            children.push(self.children[i].clone());
            i = i + 1;
        }
        let ghost cs = children@;
        let r = FileTreeItem {
            name: self.name.clone(),
            link: self.link.clone(),
            size: self.size,
            mode: self.mode.clone(),
            uid: self.uid,
            gid: self.gid,
            op: self.op,
            children,
        };
        proof {
            assert(r.children@ == cs);
            assert forall|j: int| 0 <= j < r@.children.len() implies r@.children[j]
                == self@.children[j] by {
                assert(r@.children[j] == cs[j]@);
                assert(cs[j]@ == self.children@[j]@);
            }
            assert(r@.children =~= self@.children);
            assert(r@ =~= self@);
        }
        r
    }
}

/// Views of a list of path components.
pub open spec fn path_views(p: Seq<&str>) -> Seq<Seq<char>> {
    p.map_values(|s: &str| s@)
}

/// Search a forest for the node at `path`: the first node whose name matches
/// the head component, recursively through its children for the rest.
pub open spec fn find_in_tree(items: Seq<FileNode>, path: Seq<Seq<char>>) -> Option<FileNode>
    decreases path.len(), items.len(),
{
    if path.len() == 0 {
        None
    } else if items.len() == 0 {
        None
    } else if items[0].name == path[0] {
        if path.len() == 1 {
            Some(items[0])
        } else {
            find_in_tree(items[0].children, path.subrange(1, path.len() as int))
        }
    } else {
        find_in_tree(items.subrange(1, items.len() as int), path)
    }
}

/// The model of an optional tree item.
pub open spec fn opt_node(r: Option<FileTreeItem>) -> Option<FileNode> {
    match r {
        Some(it) => Some(it@),
        None => None,
    }
}

fn find_in_tree_at(items: &Vec<FileTreeItem>, path_list: &Vec<&str>, k: usize) -> (r: Option<
    FileTreeItem,
>)
    requires
        k <= path_list@.len(),
    ensures
        opt_node(r) == find_in_tree(
            nodes_of(items@),
            path_views(path_list@).subrange(k as int, path_list@.len() as int),
        ),
    decreases path_list@.len() - k,
{
    let n = path_list.len();
    let ghost p = path_views(path_list@).subrange(k as int, path_list@.len() as int);
    if k == n {
        return None;
    }
    let is_last = k == n - 1;
    let mut i: usize = 0;
    proof {
        assert(nodes_of(items@).subrange(0, items@.len() as int) =~= nodes_of(items@));
    }
    while i < items.len()
        invariant
            k < path_list@.len(),
            n == path_list@.len(),
            is_last == (k == path_list@.len() - 1),
            i <= items.len(),
            p == path_views(path_list@).subrange(k as int, path_list@.len() as int),
            find_in_tree(nodes_of(items@), p) == find_in_tree(
                nodes_of(items@).subrange(i as int, items@.len() as int),
                p,
            ),
        decreases items.len() - i,
    {
        let ghost tail = nodes_of(items@).subrange(i as int, items@.len() as int);
        proof {
            assert(tail[0] == items@[i as int]@);
            assert(p[0] == path_list@[k as int]@);
        }
        if eq_str(items[i].name.as_str(), path_list[k]) {
            if is_last {
                let found = items[i].clone();
                proof {
                    assert(find_in_tree(tail, p) == Some(items@[i as int]@));
                }
                return Some(found);
            }
            proof {
                assert(p.subrange(1, p.len() as int) =~= path_views(path_list@).subrange(
                    k + 1,
                    path_list@.len() as int,
                ));
                let ch = items@[i as int].children@;
                assert forall|j: int| 0 <= j < nodes_of(ch).len() implies nodes_of(ch)[j]
                    == items@[i as int]@.children[j] by {
                    assert(nodes_of(ch)[j] == ch[j]@);
                }
                assert(nodes_of(items@[i as int].children@) =~= items@[i as int]@.children);
            }
            return find_in_tree_at(&items[i].children, path_list, k + 1);
        }
        proof {
            assert(tail.subrange(1, tail.len() as int) =~= nodes_of(items@).subrange(
                i + 1,
                items@.len() as int,
            ));
        }
        i = i + 1;
    }
    proof {
        assert(nodes_of(items@).subrange(items@.len() as int, items@.len() as int).len() == 0);
    }
    None
}

/// Find a node in a file tree by its path components.
pub fn find_file_tree_item(items: &Vec<FileTreeItem>, path_list: Vec<&str>) -> (r: Option<
    FileTreeItem,
>)
    ensures
        opt_node(r) == find_in_tree(nodes_of(items@), path_views(path_list@)),
{
    proof {
        assert(path_views(path_list@).subrange(0, path_list@.len() as int) =~= path_views(
            path_list@,
        ));
    }
    find_in_tree_at(items, &path_list, 0)
}

/// The architecture used for manifest selection: the request's own when
/// non-empty, otherwise arm64 on an arm host and amd64 elsewhere.
pub open spec fn spec_resolve_arch(arch: Seq<char>, host: Seq<char>) -> Seq<char> {
    if arch.len() > 0 {
        arch
    } else if spec_contains_substr(host, "arm"@) || spec_contains_substr(host, "aarch64"@) {
        "arm64"@
    } else {
        "amd64"@
    }
}

pub fn resolve_arch(arch: &str, host_arch: &str) -> (r: String)
    ensures
        r@ == spec_resolve_arch(arch@, host_arch@),
{
    if str_len_positive(arch) {
        String::from_str(arch)
    } else if contains_substr(host_arch, "arm") || contains_substr(host_arch, "aarch64") {
        String::from_str("arm64")
    } else {
        String::from_str("amd64")
    }
}

fn str_len_positive(s: &str) -> (r: bool)
    ensures
        r == (s@.len() > 0),
{
    s.unicode_len() > 0
}

/// True if the descriptor is for linux on the given architecture.
pub open spec fn index_matches(m: ImageIndexManifest, arch: Seq<char>) -> bool {
    m.platform.os@ == "linux"@ && m.platform.architecture@ == arch
}

/// True if the descriptor is for linux.
pub open spec fn index_is_linux(m: ImageIndexManifest) -> bool {
    m.platform.os@ == "linux"@
}

/// First index at or after `i` whose entry matches linux + architecture.
pub open spec fn first_match_idx(ms: Seq<ImageIndexManifest>, arch: Seq<char>, i: int) -> Option<
    int,
>
    decreases ms.len() - i,
{
    if i < 0 || i >= ms.len() {
        None
    } else if index_matches(ms[i], arch) {
        Some(i)
    } else {
        first_match_idx(ms, arch, i + 1)
    }
}

/// First index at or after `i` whose entry is for linux.
pub open spec fn first_linux_idx(ms: Seq<ImageIndexManifest>, i: int) -> Option<int>
    decreases ms.len() - i,
{
    if i < 0 || i >= ms.len() {
        None
    } else if index_is_linux(ms[i]) {
        Some(i)
    } else {
        first_linux_idx(ms, i + 1)
    }
}

/// The descriptor an index selects for an architecture: the first linux
/// entry with that architecture, else the first linux entry, else the
/// first entry; none if the index is empty.
pub open spec fn spec_guess_manifest(ms: Seq<ImageIndexManifest>, arch: Seq<char>) -> Option<
    ImageIndexManifest,
> {
    if ms.len() == 0 {
        None
    } else if first_match_idx(ms, arch, 0) is Some {
        Some(ms[first_match_idx(ms, arch, 0).unwrap()])
    } else if first_linux_idx(ms, 0) is Some {
        Some(ms[first_linux_idx(ms, 0).unwrap()])
    } else {
        Some(ms[0])
    }
}

impl ImageIndex {
    /// Select the manifest for the wanted architecture (`host_arch` fills in
    /// an empty request).  An empty index is reported as an error, never a
    /// panic.
    pub fn guess_manifest(&self, arch: &str, host_arch: &str) -> (r: Result<
        ImageIndexManifest,
        HTTPError,
    >)
        ensures
            match r {
                Ok(m) => Some(m) == spec_guess_manifest(
                    self.manifests@,
                    spec_resolve_arch(arch@, host_arch@),
                ),
                Err(e) => self.manifests@.len() == 0 && e.category@ == "docker"@,
            },
    {
        let wanted = resolve_arch(arch, host_arch);
        if self.manifests.len() == 0 {
            return Err(HTTPError::new_with_category("Image Manifest Not Found", "docker"));
        }
        let ms = &self.manifests;
        let mut linux_at: Option<usize> = None;
        let mut i: usize = 0;
        while i < ms.len()
            invariant
                ms@ == self.manifests@,
                ms@.len() > 0,
                i <= ms@.len(),
                wanted@ == spec_resolve_arch(arch@, host_arch@),
                first_match_idx(ms@, wanted@, 0) == first_match_idx(ms@, wanted@, i as int),
                match linux_at {
                    Some(j) => first_linux_idx(ms@, 0) == Some(j as int) && j < i,
                    None => first_linux_idx(ms@, 0) == first_linux_idx(ms@, i as int),
                },
            decreases ms@.len() - i,
    {
            let is_linux = eq_str(ms[i].platform.os.as_str(), "linux");
            if is_linux && eq_str(ms[i].platform.architecture.as_str(), wanted.as_str()) {
                proof {
                    assert(index_matches(ms@[i as int], wanted@));
                    assert(first_match_idx(ms@, wanted@, i as int) == Some(i as int));
                    assert(spec_guess_manifest(ms@, wanted@) == Some(ms@[i as int]));
                }
                let m = ms[i].clone();
                assert(m == ms@[i as int]);
                return Ok(m);
            }
            proof {
                assert(!index_matches(ms@[i as int], wanted@));
                assert(first_match_idx(ms@, wanted@, i as int) == first_match_idx(
                    ms@,
                    wanted@,
                    i + 1,
                ));
            }
            if is_linux && linux_at.is_none() {
                proof {
                    assert(index_is_linux(ms@[i as int]));
                    assert(first_linux_idx(ms@, i as int) == Some(i as int));
                }
                linux_at = Some(i);
            } else {
                proof {
                    if linux_at is None {
                        assert(first_linux_idx(ms@, i as int) == first_linux_idx(ms@, i + 1));
                    }
                }
            }
            i = i + 1;
        }
        proof {
            assert(first_match_idx(ms@, wanted@, ms@.len() as int) is None);
        }
        match linux_at {
            Some(j) => {
                let r = ms[j].clone();
                Ok(r)
            },
            None => {
                proof {
                    assert(first_linux_idx(ms@, ms@.len() as int) is None);
                }
                let r = ms[0].clone();
                Ok(r)
            },
        }
    }
}

} // verus!

verus! {

/// Wrapping addition on u64, used only where a bound proof shows no wrap.
pub open spec fn add64(a: u64, b: u64) -> u64 {
    (a + b) as u64
}

/// Views of a list of owned path components.
pub open spec fn string_views(p: Seq<String>) -> Seq<Seq<char>> {
    p.map_values(|s: String| s@)
}

/// Every node of the tree, recursively, has `size <= b`.
pub open spec fn node_sizes_le(n: FileNode, b: int) -> bool
    decreases n,
{
    n.size <= b && forall|i: int|
        0 <= i < n.children.len() ==> node_sizes_le(#[trigger] n.children[i], b)
}

/// Every node of every tree of the forest has `size <= b`.
pub open spec fn forest_sizes_le(items: Seq<FileNode>, b: int) -> bool {
    forall|i: int| 0 <= i < items.len() ==> node_sizes_le(#[trigger] items[i], b)
}

/// Sum of the sizes of a file listing.
pub open spec fn sum_file_sizes(files: Seq<FileInfoV>) -> int
    decreases files.len(),
{
    if files.len() == 0 {
        0
    } else {
        sum_file_sizes(files.drop_last()) + files.last().size
    }
}

/// Last position in the forest whose node carries `name`, if any.
pub open spec fn last_name_idx(items: Seq<FileNode>, name: Seq<char>) -> Option<int>
    decreases items.len(),
{
    if items.len() == 0 {
        None
    } else if items.last().name == name {
        Some(items.len() - 1)
    } else {
        last_name_idx(items.drop_last(), name)
    }
}

/// Add `sz` to the size of every node of the forest carrying `name`.
pub open spec fn bump_matching(items: Seq<FileNode>, name: Seq<char>, sz: u64) -> Seq<FileNode> {
    Seq::new(
        items.len(),
        |i: int|
            if 0 <= i < items.len() && items[i].name == name {
                FileNode { size: add64(items[i].size, sz), ..items[i] }
            } else if 0 <= i < items.len() {
                items[i]
            } else {
                arbitrary()
            },
    )
}

/// The directory node created for component `name` when a file of size
/// `sz` and operation `op` first passes through it.
pub open spec fn fresh_dir(name: Seq<char>, sz: u64, op: Op) -> FileNode {
    FileNode {
        name: name,
        link: Seq::<char>::empty(),
        size: sz,
        mode: Seq::<char>::empty(),
        uid: 0,
        gid: 0,
        op: if op == Op::Modified {
            Op::Modified
        } else {
            Op::Unchanged
        },
        children: Seq::<FileNode>::empty(),
    }
}

/// Insert a leaf under the directory components `names`.  Every matching
/// directory on the way gains the leaf's size; a missing directory is
/// created at the end of its forest; the leaf lands once the components
/// are exhausted.  Descent continues at the last name match, as the
/// analyzer's tree builder does.
pub open spec fn spec_add_file(items: Seq<FileNode>, names: Seq<Seq<char>>, leaf: FileNode) -> Seq<
    FileNode,
>
    decreases names.len(),
{
    if names.len() == 0 {
        items.push(leaf)
    } else {
        let name = names[0];
        let rest = names.subrange(1, names.len() as int);
        match last_name_idx(items, name) {
            Some(i) => {
                let bumped = bump_matching(items, name, leaf.size);
                bumped.update(
                    i,
                    FileNode { children: spec_add_file(bumped[i].children, rest, leaf), ..bumped[i] },
                )
            },
            None => items.push(
                FileNode {
                    children: spec_add_file(Seq::<FileNode>::empty(), rest, leaf),
                    ..fresh_dir(name, leaf.size, leaf.op)
                },
            ),
        }
    }
}

} // verus!

verus! {

/// The children of a node's model are the models of its children.
pub proof fn lemma_view_children(item: FileTreeItem)
    ensures
        node_view(item).children == nodes_of(item.children@),
{
    assert(node_view(item).children =~= nodes_of(item.children@));
}

/// A forest has no node named `name` exactly when the search fails.
pub proof fn lemma_last_name_none(items: Seq<FileNode>, name: Seq<char>)
    ensures
        (last_name_idx(items, name) is None) <==> (forall|j: int|
            0 <= j < items.len() ==> (#[trigger] items[j]).name != name),
    decreases items.len(),
{
    if items.len() > 0 {
        lemma_last_name_none(items.drop_last(), name);
        assert forall|j: int| 0 <= j < items.len() - 1 implies items.drop_last()[j] == items[j] by {}
        if last_name_idx(items, name) is None {
            assert(items.last() == items[items.len() - 1]);
        }
    }
}

/// Insert `item` as a leaf under the directory components
/// `name_list[k ..]`, growing every directory passed through by the leaf's
/// size.  `b` bounds every node size already in the forest, so no size
/// addition can overflow.
fn add_file(
    items: &mut Vec<FileTreeItem>,
    name_list: &Vec<String>,
    k: usize,
    item: FileTreeItem,
    Ghost(b): Ghost<int>,
)
    requires
        k <= name_list@.len(),
        forest_sizes_le(nodes_of(old(items)@), b),
        0 <= b,
        b + item.size <= u64::MAX,
    ensures
        nodes_of(final(items)@) == spec_add_file(
            nodes_of(old(items)@),
            string_views(name_list@).subrange(k as int, name_list@.len() as int),
            item@,
        ),
    decreases name_list@.len() - k,
{
    let ghost old_nodes = nodes_of(items@);
    let ghost names = string_views(name_list@).subrange(k as int, name_list@.len() as int);
    let ghost leafv = item@;
    if k == name_list.len() {
        items.push(item);
        proof {
            assert(nodes_of(items@) =~~= old_nodes.push(leafv));
        }
        return;
    }
    let ghost name = name_list@[k as int]@;
    proof {
        assert(names[0] == name);
    }
    let sz = item.size;
    let ghost bumped = bump_matching(old_nodes, name, sz);
    let mut found: Option<usize> = None;
    let mut idx: usize = 0;
    while idx < items.len()
        invariant
            k < name_list@.len(),
            name == name_list@[k as int]@,
            idx <= items@.len(),
            items@.len() == old_nodes.len(),
            sz == item.size,
            bumped == bump_matching(old_nodes, name, sz),
            forest_sizes_le(old_nodes, b),
            b + sz <= u64::MAX,
            0 <= b,
            forall|j: int| idx <= j < items@.len() ==> #[trigger] items@[j]@ == old_nodes[j],
            forall|j: int| 0 <= j < idx ==> #[trigger] items@[j]@ == bumped[j],
            match found {
                Some(f) => f < idx && last_name_idx(old_nodes.subrange(0, idx as int), name)
                    == Some(f as int),
                None => last_name_idx(old_nodes.subrange(0, idx as int), name) is None,
            },
        decreases items@.len() - idx,
    {
        proof {
            assert(items@[idx as int]@ == old_nodes[idx as int]);
            assert(old_nodes.subrange(0, idx + 1).drop_last() =~= old_nodes.subrange(
                0,
                idx as int,
            ));
            assert(old_nodes.subrange(0, idx + 1).last() == old_nodes[idx as int]);
        }
        let matches = eq_str(items[idx].name.as_str(), name_list[k].as_str());
        if matches {
            proof {
                assert(node_sizes_le(old_nodes[idx as int], b));
                assert(items@[idx as int].size == old_nodes[idx as int].size);
            }
            let bumped_size = items[idx].size + sz;
            let ghost before = items@[idx as int];
            items[idx].size = bumped_size;
            found = Some(idx);
            proof {
                let after = items@[idx as int];
                assert(after.children == before.children);
                assert(node_view(after).children =~= node_view(before).children);
                assert(items@[idx as int]@ =~= bumped[idx as int]);
            }
        } else {
            proof {
                assert(bumped[idx as int] == old_nodes[idx as int]);
            }
        }
        idx = idx + 1;
    }
    proof {
        assert(old_nodes.subrange(0, old_nodes.len() as int) =~= old_nodes);
        assert(names.subrange(1, names.len() as int) =~= string_views(name_list@).subrange(
            k + 1,
            name_list@.len() as int,
        ));
    }
    match found {
        Some(f) => {
            proof {
                assert(items@[f as int]@ == bumped[f as int]);
                assert(bumped[f as int].children == old_nodes[f as int].children);
                lemma_view_children(items@[f as int]);
                assert(node_sizes_le(old_nodes[f as int], b));
                assert(forest_sizes_le(nodes_of(items@[f as int].children@), b));
            }
            let ghost pre = items@;
            add_file(&mut items[f].children, name_list, k + 1, item, Ghost(b));
            proof {
                let target = FileNode {
                    children: spec_add_file(
                        bumped[f as int].children,
                        names.subrange(1, names.len() as int),
                        leafv,
                    ),
                    ..bumped[f as int]
                };
                lemma_view_children(items@[f as int]);
                assert(items@[f as int]@.children == target.children);
                assert(items@[f as int]@ =~= target);
                assert(nodes_of(items@) =~~= bumped.update(f as int, target));
                assert(spec_add_file(old_nodes, names, leafv) == bumped.update(f as int, target));
            }
        },
        None => {
            proof {
                lemma_last_name_none(old_nodes, name);
                assert forall|j: int| 0 <= j < old_nodes.len() implies #[trigger] bumped[j]
                    == old_nodes[j] by {}
            }
            let dir_op = if item.op == Op::Modified {
                Op::Modified
            } else {
                Op::Unchanged
            };
            let mut dir = FileTreeItem {
                name: name_list[k].clone(),
                link: String::new(),
                size: item.size,
                mode: String::new(),
                uid: 0,
                gid: 0,
                op: dir_op,
                children: Vec::new(),
            };
            proof {
                assert(nodes_of(dir.children@) =~= Seq::<FileNode>::empty());
            }
            add_file(&mut dir.children, name_list, k + 1, item, Ghost(b));
            items.push(dir);
            proof {
                let target = FileNode {
                    children: spec_add_file(
                        Seq::<FileNode>::empty(),
                        names.subrange(1, names.len() as int),
                        leafv,
                    ),
                    ..fresh_dir(name, leafv.size, leafv.op)
                };
                let d = items@.last();
                lemma_view_children(d);
                assert(d@.children == target.children);
                assert(d@ =~= target);
                assert(nodes_of(items@) =~~= old_nodes.push(target));
                assert(spec_add_file(old_nodes, names, leafv) == old_nodes.push(target));
            }
        },
    }
}

} // verus!

verus! {

/// Size bounds only grow.
pub proof fn lemma_node_le_mono(n: FileNode, a: int, b: int)
    requires
        node_sizes_le(n, a),
        a <= b,
    ensures
        node_sizes_le(n, b),
    decreases n,
{
    assert forall|i: int| 0 <= i < n.children.len() implies node_sizes_le(
        #[trigger] n.children[i],
        b,
    ) by {
        lemma_node_le_mono(n.children[i], a, b);
    }
}

pub proof fn lemma_forest_le_mono(items: Seq<FileNode>, a: int, b: int)
    requires
        forest_sizes_le(items, a),
        a <= b,
    ensures
        forest_sizes_le(items, b),
{
    assert forall|i: int| 0 <= i < items.len() implies node_sizes_le(#[trigger] items[i], b) by {
        lemma_node_le_mono(items[i], a, b);
    }
}

/// A successful name search returns an index in range carrying the name.
pub proof fn lemma_last_name_some(items: Seq<FileNode>, name: Seq<char>)
    ensures
        match last_name_idx(items, name) {
            Some(i) => 0 <= i < items.len() && items[i].name == name,
            None => true,
        },
    decreases items.len(),
{
    if items.len() > 0 {
        lemma_last_name_some(items.drop_last(), name);
        if items.last().name != name {
            match last_name_idx(items.drop_last(), name) {
                Some(i) => {
                    assert(items.drop_last()[i] == items[i]);
                },
                None => {},
            }
        }
    }
}

/// Inserting a leaf into a forest bounded by `b` yields a forest bounded
/// by `b` plus the leaf's size.
pub proof fn lemma_add_file_bound(items: Seq<FileNode>, names: Seq<Seq<char>>, leaf: FileNode, b: int)
    requires
        forest_sizes_le(items, b),
        0 <= b,
        leaf.children.len() == 0,
    ensures
        forest_sizes_le(spec_add_file(items, names, leaf), b + leaf.size),
    decreases names.len(),
{
    let out = spec_add_file(items, names, leaf);
    lemma_forest_le_mono(items, b, b + leaf.size);
    if names.len() == 0 {
        assert(node_sizes_le(leaf, b + leaf.size));
        assert forall|i: int| 0 <= i < out.len() implies node_sizes_le(#[trigger] out[i], b
            + leaf.size) by {
            if i < items.len() {
                assert(node_sizes_le(items[i], b + leaf.size));
            }
        }
    } else {
        let name = names[0];
        let rest = names.subrange(1, names.len() as int);
        match last_name_idx(items, name) {
            Some(i) => {
                lemma_last_name_some(items, name);
                let bumped = bump_matching(items, name, leaf.size);
                assert(node_sizes_le(items[i], b));
                lemma_add_file_bound(items[i].children, rest, leaf, b);
                assert forall|j: int| 0 <= j < out.len() implies node_sizes_le(
                    #[trigger] out[j],
                    b + leaf.size,
                ) by {
                    assert(node_sizes_le(items[j], b));
                    if j != i {
                        assert(out[j] == bumped[j]);
                        if items[j].name == name {
                            assert(node_sizes_le(out[j], b + leaf.size));
                        } else {
                            assert(out[j] == items[j]);
                        }
                    } else {
                        assert(out[j].children == spec_add_file(items[i].children, rest, leaf));
                        assert(forest_sizes_le(out[j].children, b + leaf.size));
                        assert(out[j].size <= b + leaf.size);
                    }
                }
            },
            None => {
                lemma_add_file_bound(Seq::<FileNode>::empty(), rest, leaf, b);
                assert forall|j: int| 0 <= j < out.len() implies node_sizes_le(
                    #[trigger] out[j],
                    b + leaf.size,
                ) by {
                    if j < items.len() {
                        assert(node_sizes_le(items[j], b + leaf.size));
                    } else {
                        assert(out[j].children == spec_add_file(
                            Seq::<FileNode>::empty(),
                            rest,
                            leaf,
                        ));
                        assert(forest_sizes_le(out[j].children, b + leaf.size));
                    }
                }
            },
        }
    }
}

/// Sums of sizes are nonnegative and grow along a prefix.
pub proof fn lemma_sum_nonneg(files: Seq<FileInfoV>)
    ensures
        0 <= sum_file_sizes(files),
    decreases files.len(),
{
    if files.len() > 0 {
        lemma_sum_nonneg(files.drop_last());
    }
}

pub proof fn lemma_sum_prefix_le(files: Seq<FileInfoV>, i: int)
    requires
        0 <= i <= files.len(),
    ensures
        sum_file_sizes(files.subrange(0, i)) <= sum_file_sizes(files),
    decreases files.len() - i,
{
    if i == files.len() {
        assert(files.subrange(0, i) =~= files);
    } else {
        lemma_sum_prefix_le(files, i + 1);
        assert(files.subrange(0, i + 1).drop_last() =~= files.subrange(0, i));
        assert(files.subrange(0, i + 1).last() == files[i]);
    }
}

/// The operation a leaf enters the tree with: removed for a whiteout,
/// modified when an earlier summary entry names the same path, otherwise
/// unchanged.
pub open spec fn leaf_op(f: FileInfoV, summaries: Seq<SummaryV>) -> Op {
    if f.is_whiteout is Some {
        Op::Removed
    } else if exists|j: int|
        0 <= j < summaries.len() && (#[trigger] summaries[j]).info.path == f.path {
        Op::Modified
    } else {
        Op::Unchanged
    }
}

/// The leaf node built for a file entry.
pub open spec fn leaf_node(f: FileInfoV, summaries: Seq<SummaryV>) -> FileNode {
    FileNode {
        name: spec_split(f.path, seq!['/']).last(),
        link: f.link,
        size: f.size,
        mode: f.mode,
        uid: f.uid,
        gid: f.gid,
        op: leaf_op(f, summaries),
        children: Seq::<FileNode>::empty(),
    }
}

/// The tree a file listing builds: each file is inserted in order under
/// its directory components.
pub open spec fn spec_file_tree(files: Seq<FileInfoV>, summaries: Seq<SummaryV>) -> Seq<FileNode>
    decreases files.len(),
{
    if files.len() == 0 {
        Seq::<FileNode>::empty()
    } else {
        let f = files.last();
        let comps = spec_split(f.path, seq!['/']);
        spec_add_file(
            spec_file_tree(files.drop_last(), summaries),
            comps.drop_last(),
            leaf_node(f, summaries),
        )
    }
}

fn summary_has_path(list: &Vec<ImageFileSummary>, path: &String) -> (r: bool)
    ensures
        r == exists|j: int|
            0 <= j < summary_views(list@).len() && (#[trigger] summary_views(list@)[j]).info.path
                == path@,
{
    let mut j: usize = 0;
    while j < list.len()
        invariant
            j <= list@.len(),
            forall|t: int| 0 <= t < j ==> (#[trigger] list@[t]).info.path@ != path@,
        decreases list@.len() - j,
    {
        if eq_str(list[j].info.path.as_str(), path.as_str()) {
            proof {
                assert(summary_views(list@)[j as int] == list@[j as int]@);
            }
            return true;
        }
        j = j + 1;
    }
    proof {
        assert forall|j: int|
            0 <= j < summary_views(list@).len() implies (#[trigger] summary_views(
            list@,
        )[j]).info.path != path@ by {
            assert(summary_views(list@)[j] == list@[j]@);
            assert(list@[j].info.path@ != path@);
        }
    }
    false
}

/// Build the file tree of one layer.  Files appear at their path, every
/// directory node's size grows by each file inserted beneath it, whiteouts
/// enter as removed, and files already named by the summary list enter as
/// modified.
pub fn convert_files_to_file_tree(
    files: &Vec<ImageFileInfo>,
    file_summary_list: &Vec<ImageFileSummary>,
) -> (r: Vec<FileTreeItem>)
    requires
        sum_file_sizes(file_views(files@)) <= u64::MAX,
    ensures
        nodes_of(r@) == spec_file_tree(file_views(files@), summary_views(file_summary_list@)),
        forest_sizes_le(nodes_of(r@), sum_file_sizes(file_views(files@))),
{
    let mut tree: Vec<FileTreeItem> = Vec::new();
    let mut i: usize = 0;
    let seps: Vec<char> = vec!['/'];
    proof {
        assert(seps@ =~= seq!['/']);
        assert(file_views(files@).subrange(0, 0) =~= Seq::<FileInfoV>::empty());
        assert(nodes_of(tree@) =~= Seq::<FileNode>::empty());
    }
    while i < files.len()
        invariant
            i <= files@.len(),
            seps@ == seq!['/'],
            sum_file_sizes(file_views(files@)) <= u64::MAX,
            nodes_of(tree@) == spec_file_tree(
                file_views(files@).subrange(0, i as int),
                summary_views(file_summary_list@),
            ),
            forest_sizes_le(
                nodes_of(tree@),
                sum_file_sizes(file_views(files@).subrange(0, i as int)),
            ),
        decreases files@.len() - i,
    {
        let ghost fv = file_views(files@);
        let ghost prefix = fv.subrange(0, i as int);
        let ghost bound = sum_file_sizes(prefix);
        proof {
            lemma_sum_nonneg(prefix);
            lemma_sum_prefix_le(fv, i + 1);
            assert(fv.subrange(0, i + 1).drop_last() =~= prefix);
            assert(fv.subrange(0, i + 1).last() == fv[i as int]);
            assert(fv[i as int] == files@[i as int]@);
        }
        let file = &files[i];
        let mut comps = split_chars(file.path.as_str(), &seps);
        proof {
            lemma_split_len(file.path@, seq!['/']);
        }
        let name = match comps.pop() {
            Some(n) => n,
            None => String::new(),
        };
        let op = if file.is_whiteout.is_some() {
            Op::Removed
        } else if summary_has_path(file_summary_list, &file.path) {
            Op::Modified
        } else {
            Op::Unchanged
        };
        let leaf = FileTreeItem {
            name,
            link: file.link.clone(),
            size: file.size,
            mode: file.mode.clone(),
            uid: file.uid,
            gid: file.gid,
            op,
            children: Vec::new(),
        };
        proof {
            assert(leaf@.children =~= Seq::<FileNode>::empty());
            assert(leaf@ =~= leaf_node(files@[i as int]@, summary_views(file_summary_list@)));
            assert(string_views(comps@) =~= spec_split(files@[i as int].path@, seq![
                '/',
            ]).drop_last());
            assert(string_views(comps@).subrange(0, comps@.len() as int) =~= string_views(
                comps@,
            ));
        }
        add_file(&mut tree, &comps, 0, leaf, Ghost(bound));
        proof {
            lemma_add_file_bound(
                spec_file_tree(prefix, summary_views(file_summary_list@)),
                string_views(comps@),
                leaf_node(files@[i as int]@, summary_views(file_summary_list@)),
                bound,
            );
        }
        i = i + 1;
    }
    proof {
        assert(file_views(files@).subrange(0, files@.len() as int) =~= file_views(files@));
    }
    tree
}

} // verus!

verus! {

/// Mathematical model of a manifest layer descriptor.
#[verifier::ext_equal]
pub ghost struct MLayerV {
    pub media_type: Seq<char>,
    pub digest: Seq<char>,
    pub size: u64,
}

impl View for ImageManifestLayer {
    type V = MLayerV;

    open spec fn view(&self) -> MLayerV {
        MLayerV { media_type: self.media_type@, digest: self.digest@, size: self.size }
    }
}

/// Mathematical model of a manifest config descriptor.
#[verifier::ext_equal]
pub ghost struct MConfigV {
    pub media_type: Seq<char>,
    pub digest: Seq<char>,
    pub size: i64,
}

impl View for ImageManifestConfig {
    type V = MConfigV;

    open spec fn view(&self) -> MConfigV {
        MConfigV { media_type: self.media_type@, digest: self.digest@, size: self.size }
    }
}

/// Mathematical model of an image manifest.
#[verifier::ext_equal]
pub ghost struct ManifestV {
    pub media_type: Seq<char>,
    pub schema_version: i64,
    pub config: MConfigV,
    pub layers: Seq<MLayerV>,
}

impl View for ImageManifest {
    type V = ManifestV;

    open spec fn view(&self) -> ManifestV {
        ManifestV {
            media_type: self.media_type@,
            schema_version: self.schema_version,
            config: self.config@,
            layers: self.layers@.map_values(|l: ImageManifestLayer| l@),
        }
    }
}

} // verus!

verus! {

/// The names of the roots of a forest.
pub open spec fn forest_names(items: Seq<FileNode>) -> Set<Seq<char>> {
    Set::new(|n: Seq<char>| exists|i: int| 0 <= i < items.len() && (#[trigger] items[i]).name == n)
}

/// The first path component of each file of a listing.
pub open spec fn file_root_comps(files: Seq<FileInfoV>) -> Set<Seq<char>> {
    Set::new(
        |n: Seq<char>|
            exists|i: int|
                0 <= i < files.len() && spec_split((#[trigger] files[i]).path, seq!['/'])[0] == n,
    )
}

/// Inserting a leaf adds exactly the head name to the forest's roots:
/// the first directory component, or the leaf's own name when it lands
/// at the root.
pub proof fn lemma_add_file_names(items: Seq<FileNode>, names: Seq<Seq<char>>, leaf: FileNode)
    ensures
        forest_names(spec_add_file(items, names, leaf)) =~= forest_names(items).insert(
            if names.len() > 0 {
                names[0]
            } else {
                leaf.name
            },
        ),
{
    let out = spec_add_file(items, names, leaf);
    let head = if names.len() > 0 {
        names[0]
    } else {
        leaf.name
    };
    if names.len() == 0 {
        assert forall|n: Seq<char>| forest_names(out).contains(n) implies forest_names(
            items,
        ).insert(head).contains(n) by {
            let i = choose|i: int| 0 <= i < out.len() && (#[trigger] out[i]).name == n;
            if i < items.len() {
                assert(items[i].name == n);
            }
        }
        assert forall|n: Seq<char>| forest_names(items).insert(head).contains(n) implies
            forest_names(out).contains(n) by {
            if n == head {
                assert(out[out.len() - 1].name == n);
            } else {
                let i = choose|i: int| 0 <= i < items.len() && (#[trigger] items[i]).name == n;
                assert(out[i].name == n);
            }
        }
    } else {
        let name = names[0];
        match last_name_idx(items, name) {
            Some(i) => {
                lemma_last_name_some(items, name);
                let bumped = bump_matching(items, name, leaf.size);
                assert forall|n: Seq<char>| forest_names(out).contains(n) implies forest_names(
                    items,
                ).insert(head).contains(n) by {
                    let j = choose|j: int| 0 <= j < out.len() && (#[trigger] out[j]).name == n;
                    assert(items[j].name == n);
                }
                assert forall|n: Seq<char>| forest_names(items).insert(head).contains(n) implies
                    forest_names(out).contains(n) by {
                    if n == head {
                        assert(out[i].name == n);
                    } else {
                        let j = choose|j: int|
                            0 <= j < items.len() && (#[trigger] items[j]).name == n;
                        assert(out[j].name == n);
                    }
                }
            },
            None => {
                assert forall|n: Seq<char>| forest_names(out).contains(n) implies forest_names(
                    items,
                ).insert(head).contains(n) by {
                    let j = choose|j: int| 0 <= j < out.len() && (#[trigger] out[j]).name == n;
                    if j < items.len() {
                        assert(items[j].name == n);
                    }
                }
                assert forall|n: Seq<char>| forest_names(items).insert(head).contains(n) implies
                    forest_names(out).contains(n) by {
                    if n == head {
                        assert(out[out.len() - 1].name == n);
                    } else {
                        let j = choose|j: int|
                            0 <= j < items.len() && (#[trigger] items[j]).name == n;
                        assert(out[j].name == n);
                    }
                }
            },
        }
    }
}

/// The roots of a layer's file tree are exactly the top-level path
/// components of the layer's files.
pub proof fn lemma_file_tree_root_names(files: Seq<FileInfoV>, summaries: Seq<SummaryV>)
    ensures
        forest_names(spec_file_tree(files, summaries)) =~= file_root_comps(files),
    decreases files.len(),
{
    if files.len() == 0 {
        assert(forest_names(spec_file_tree(files, summaries)) =~= Set::<Seq<char>>::empty());
        assert(file_root_comps(files) =~= Set::<Seq<char>>::empty());
    } else {
        let prev = files.drop_last();
        lemma_file_tree_root_names(prev, summaries);
        let f = files.last();
        let comps = spec_split(f.path, seq!['/']);
        crate::strops::lemma_split_len(f.path, seq!['/']);
        let leaf = leaf_node(f, summaries);
        lemma_add_file_names(spec_file_tree(prev, summaries), comps.drop_last(), leaf);
        let head = if comps.drop_last().len() > 0 {
            comps.drop_last()[0]
        } else {
            leaf.name
        };
        assert(head == comps[0]);
        assert forall|n: Seq<char>| file_root_comps(files).contains(n) implies file_root_comps(
            prev,
        ).insert(head).contains(n) by {
            let i = choose|i: int|
                0 <= i < files.len() && spec_split((#[trigger] files[i]).path, seq!['/'])[0] == n;
            if i < files.len() - 1 {
                assert(prev[i] == files[i]);
                assert(spec_split(prev[i].path, seq!['/'])[0] == n);
            }
        }
        assert forall|n: Seq<char>| file_root_comps(prev).insert(head).contains(n) implies
            file_root_comps(files).contains(n) by {
            if n == head {
                assert(spec_split(files[files.len() - 1].path, seq!['/'])[0] == n);
            } else {
                let i = choose|i: int|
                    0 <= i < prev.len() && spec_split((#[trigger] prev[i]).path, seq!['/'])[0]
                        == n;
                assert(files[i] == prev[i]);
                assert(spec_split(files[i].path, seq!['/'])[0] == n);
            }
        }
        assert(file_root_comps(files) =~= file_root_comps(prev).insert(head));
        assert(forest_names(spec_file_tree(files, summaries)) =~= file_root_comps(files));
    }
}

} // verus!

verus! {

/// The bytes of the files stored in a subtree: a leaf counts its own
/// size, a directory the files beneath it.
pub open spec fn subtree_file_sum(n: FileNode) -> int
    decreases n, 1int,
{
    if n.children.len() == 0 {
        n.size as int
    } else {
        forest_file_sum(n.children, n.children.len() as int)
    }
}

/// The bytes of the files stored under the first `k` trees of a forest.
pub open spec fn forest_file_sum(items: Seq<FileNode>, k: int) -> int
    decreases items, k,
{
    if k <= 0 || k > items.len() {
        0
    } else {
        forest_file_sum(items, k - 1) + subtree_file_sum(items[k - 1])
    }
}

/// Every directory's size is the sum of the sizes of the files beneath
/// it, recursively.
pub open spec fn node_sized(n: FileNode) -> bool
    decreases n,
{
    &&& (n.children.len() > 0 ==> n.size == forest_file_sum(n.children, n.children.len() as int))
    &&& forall|i: int| 0 <= i < n.children.len() ==> node_sized(#[trigger] n.children[i])
}

pub open spec fn forest_sized(items: Seq<FileNode>) -> bool {
    forall|i: int| 0 <= i < items.len() ==> node_sized(#[trigger] items[i])
}

/// A descent path meets only directories, each the only node of its name
/// at its level.
pub open spec fn path_clear(items: Seq<FileNode>, names: Seq<Seq<char>>) -> bool
    decreases names.len(),
{
    names.len() == 0 || match last_name_idx(items, names[0]) {
        None => true,
        Some(i) => {
            &&& (forall|j: int|
                0 <= j < items.len() && j != i ==> (#[trigger] items[j]).name != names[0])
            &&& items[i].children.len() > 0
            &&& path_clear(items[i].children, names.subrange(1, names.len() as int))
        },
    }
}

proof fn lemma_forest_sum_prefix_push(items: Seq<FileNode>, x: FileNode, k: int)
    requires
        0 <= k <= items.len(),
    ensures
        forest_file_sum(items.push(x), k) == forest_file_sum(items, k),
    decreases k,
{
    if k > 0 {
        lemma_forest_sum_prefix_push(items, x, k - 1);
        assert(items.push(x)[k - 1] == items[k - 1]);
    }
}

proof fn lemma_forest_sum_push(items: Seq<FileNode>, x: FileNode)
    ensures
        forest_file_sum(items.push(x), items.len() as int + 1) == forest_file_sum(
            items,
            items.len() as int,
        ) + subtree_file_sum(x),
{
    lemma_forest_sum_prefix_push(items, x, items.len() as int);
    assert(items.push(x)[items.len() as int] == x);
}

proof fn lemma_forest_sum_update(items: Seq<FileNode>, i: int, x: FileNode, k: int)
    requires
        0 <= i < items.len(),
        0 <= k <= items.len(),
    ensures
        forest_file_sum(items.update(i, x), k) == if i < k {
            forest_file_sum(items, k) - subtree_file_sum(items[i]) + subtree_file_sum(x)
        } else {
            forest_file_sum(items, k)
        },
    decreases k,
{
    if k > 0 {
        lemma_forest_sum_update(items, i, x, k - 1);
        if i == k - 1 {
            assert(items.update(i, x)[k - 1] == x);
        } else {
            assert(items.update(i, x)[k - 1] == items[k - 1]);
        }
    }
}

/// Inserting a leaf along a clear descent path keeps every directory's
/// size equal to the bytes of the files beneath it, and grows the
/// forest's file bytes by exactly the leaf's size.
pub proof fn lemma_add_file_sized(items: Seq<FileNode>, names: Seq<Seq<char>>, leaf: FileNode, b: int)
    requires
        forest_sized(items),
        path_clear(items, names),
        leaf.children.len() == 0,
        forest_sizes_le(items, b),
        0 <= b,
        b + leaf.size <= u64::MAX,
    ensures
        forest_sized(spec_add_file(items, names, leaf)),
        forest_file_sum(spec_add_file(items, names, leaf), spec_add_file(items, names, leaf).len() as int)
            == forest_file_sum(items, items.len() as int) + leaf.size,
    decreases names.len(),
{
    let out = spec_add_file(items, names, leaf);
    if names.len() == 0 {
        assert(out == items.push(leaf));
        assert(node_sized(leaf));
        lemma_forest_sum_push(items, leaf);
        assert forall|j: int| 0 <= j < out.len() implies node_sized(#[trigger] out[j]) by {
            if j < items.len() {
                assert(out[j] == items[j]);
            } else {
                assert(out[j] == leaf);
            }
        }
    } else {
        let name = names[0];
        let rest = names.subrange(1, names.len() as int);
        match last_name_idx(items, name) {
            Some(i) => {
                lemma_last_name_some(items, name);
                let bumped = bump_matching(items, name, leaf.size);
                let kid0 = items[i].children;
                let kid = spec_add_file(kid0, rest, leaf);
                let target = FileNode { children: kid, ..bumped[i] };
                assert(node_sized(items[i]));
                assert(node_sizes_le(items[i], b));
                assert(forest_sized(kid0)) by {
                    assert forall|j: int| 0 <= j < kid0.len() implies node_sized(
                        #[trigger] kid0[j],
                    ) by {}
                }
                assert(forest_sizes_le(kid0, b)) by {
                    assert forall|j: int| 0 <= j < kid0.len() implies node_sizes_le(
                        #[trigger] kid0[j],
                        b,
                    ) by {}
                }
                lemma_add_file_sized(kid0, rest, leaf, b);
                // only the descended node changes: every other slot keeps
                // its value because no other node carries the name
                assert(bumped =~= items.update(i, FileNode { size: add64(items[i].size, leaf.size), ..items[i] }));
                assert(out =~= items.update(i, target));
                assert(items[i].size + leaf.size <= u64::MAX);
                assert(target.size == items[i].size + leaf.size);
                assert(target.children.len() > 0) by {
                    if kid.len() == 0 {
                        lemma_add_file_len(kid0, rest, leaf);
                    }
                }
                assert(subtree_file_sum(items[i]) == forest_file_sum(kid0, kid0.len() as int));
                assert(node_sized(target)) by {
                    assert(target.size == forest_file_sum(kid, kid.len() as int));
                    assert forall|j: int| 0 <= j < target.children.len() implies node_sized(
                        #[trigger] target.children[j],
                    ) by {}
                }
                lemma_forest_sum_update(items, i, target, items.len() as int);
                assert(subtree_file_sum(target) == subtree_file_sum(items[i]) + leaf.size);
                assert forall|j: int| 0 <= j < out.len() implies node_sized(#[trigger] out[j]) by {
                    if j != i {
                        assert(out[j] == items[j]);
                    } else {
                        assert(out[j] == target);
                    }
                }
            },
            None => {
                let kid = spec_add_file(Seq::<FileNode>::empty(), rest, leaf);
                let dir0 = fresh_dir(name, leaf.size, leaf.op);
                let target = FileNode { children: kid, ..dir0 };
                assert(forest_sized(Seq::<FileNode>::empty()));
                assert(forest_sizes_le(Seq::<FileNode>::empty(), b));
                assert(path_clear(Seq::<FileNode>::empty(), rest)) by {
                    if rest.len() > 0 {
                        assert(last_name_idx(Seq::<FileNode>::empty(), rest[0]) is None);
                    }
                }
                lemma_add_file_sized(Seq::<FileNode>::empty(), rest, leaf, b);
                assert(out == items.push(target));
                assert(target.children.len() > 0) by {
                    if kid.len() == 0 {
                        lemma_add_file_len(Seq::<FileNode>::empty(), rest, leaf);
                    }
                }
                assert(node_sized(target)) by {
                    assert(forest_file_sum(Seq::<FileNode>::empty(), 0) == 0);
                    assert(target.size == forest_file_sum(kid, kid.len() as int));
                    assert forall|j: int| 0 <= j < target.children.len() implies node_sized(
                        #[trigger] target.children[j],
                    ) by {}
                }
                lemma_forest_sum_push(items, target);
                assert(subtree_file_sum(target) == leaf.size);
                assert forall|j: int| 0 <= j < out.len() implies node_sized(#[trigger] out[j]) by {
                    if j < items.len() {
                        assert(out[j] == items[j]);
                    } else {
                        assert(out[j] == target);
                    }
                }
            },
        }
    }
}

/// An insertion never shrinks a forest.
pub proof fn lemma_add_file_len(items: Seq<FileNode>, names: Seq<Seq<char>>, leaf: FileNode)
    ensures
        spec_add_file(items, names, leaf).len() >= items.len(),
        spec_add_file(items, names, leaf).len() >= 1,
{
    if names.len() > 0 {
        lemma_last_name_some(items, names[0]);
    }
}

} // verus!

verus! {

/// No node along the descent path's final level carries the leaf's name
/// yet: the freshly inserted leaf will be the first of its name.
pub open spec fn leaf_fresh(items: Seq<FileNode>, names: Seq<Seq<char>>, lname: Seq<char>) -> bool
    decreases names.len(),
{
    if names.len() == 0 {
        forall|j: int| 0 <= j < items.len() ==> (#[trigger] items[j]).name != lname
    } else {
        match last_name_idx(items, names[0]) {
            None => true,
            Some(i) => 0 <= i < items.len() && leaf_fresh(
                items[i].children,
                names.subrange(1, names.len() as int),
                lname,
            ),
        }
    }
}

/// Searching a forest whose first node of the wanted name sits at `i`
/// either returns that node or continues below it.
proof fn lemma_find_at_first(items: Seq<FileNode>, path: Seq<Seq<char>>, i: int)
    requires
        path.len() >= 1,
        0 <= i < items.len(),
        forall|j: int| 0 <= j < i ==> (#[trigger] items[j]).name != path[0],
        items[i].name == path[0],
    ensures
        find_in_tree(items, path) == if path.len() == 1 {
            Some(items[i])
        } else {
            find_in_tree(items[i].children, path.subrange(1, path.len() as int))
        },
    decreases i,
{
    if i > 0 {
        let tail = items.subrange(1, items.len() as int);
        assert forall|j: int| 0 <= j < i - 1 implies (#[trigger] tail[j]).name != path[0] by {
            assert(tail[j] == items[j + 1]);
        }
        assert(tail[i - 1] == items[i]);
        lemma_find_at_first(tail, path, i - 1);
    }
}

/// Inserting a leaf along a clear descent path, where no node of the
/// final level carries its name yet, makes the leaf findable at its
/// full path.
pub proof fn lemma_add_file_find(items: Seq<FileNode>, names: Seq<Seq<char>>, leaf: FileNode)
    requires
        path_clear(items, names),
        leaf_fresh(items, names, leaf.name),
    ensures
        find_in_tree(spec_add_file(items, names, leaf), names.push(leaf.name)) == Some(leaf),
    decreases names.len(),
{
    let out = spec_add_file(items, names, leaf);
    let path = names.push(leaf.name);
    if names.len() == 0 {
        assert(out == items.push(leaf));
        assert(path[0] == leaf.name);
        assert forall|j: int| 0 <= j < items.len() implies (#[trigger] out[j]).name
            != path[0] by {
            assert(out[j] == items[j]);
        }
        assert(out[items.len() as int] == leaf);
        lemma_find_at_first(out, path, items.len() as int);
    } else {
        let name = names[0];
        let rest = names.subrange(1, names.len() as int);
        assert(path[0] == name);
        assert(path.subrange(1, path.len() as int) =~= rest.push(leaf.name));
        match last_name_idx(items, name) {
            Some(i) => {
                lemma_last_name_some(items, name);
                let bumped = bump_matching(items, name, leaf.size);
                let target = FileNode {
                    children: spec_add_file(items[i].children, rest, leaf),
                    ..bumped[i]
                };
                assert(out == bumped.update(i, target));
                lemma_add_file_find(items[i].children, rest, leaf);
                assert forall|j: int| 0 <= j < i implies (#[trigger] out[j]).name != name by {
                    assert(bumped[j] == items[j]);
                    assert(out[j] == items[j]);
                }
                assert(out[i] == target);
                assert(target.name == name);
                lemma_find_at_first(out, path, i);
            },
            None => {
                lemma_last_name_none(items, name);
                let target = FileNode {
                    children: spec_add_file(Seq::<FileNode>::empty(), rest, leaf),
                    ..fresh_dir(name, leaf.size, leaf.op)
                };
                assert(out == items.push(target));
                assert(path_clear(Seq::<FileNode>::empty(), rest)) by {
                    if rest.len() > 0 {
                        assert(last_name_idx(Seq::<FileNode>::empty(), rest[0]) is None);
                    }
                }
                assert(leaf_fresh(Seq::<FileNode>::empty(), rest, leaf.name)) by {
                    if rest.len() > 0 {
                        assert(last_name_idx(Seq::<FileNode>::empty(), rest[0]) is None);
                    }
                }
                lemma_add_file_find(Seq::<FileNode>::empty(), rest, leaf);
                assert forall|j: int| 0 <= j < items.len() implies (#[trigger] out[j]).name
                    != name by {
                    assert(out[j] == items[j]);
                }
                assert(out[items.len() as int] == target);
                lemma_find_at_first(out, path, items.len() as int);
            },
        }
    }
}

} // verus!

verus! {

/// The component path of a file.
pub open spec fn file_comps(f: FileInfoV) -> Seq<Seq<char>> {
    spec_split(f.path, seq!['/'])
}

/// The component paths of a file listing, as a set.
pub open spec fn comp_paths(files: Seq<FileInfoV>) -> Set<Seq<Seq<char>>> {
    Set::new(
        |p: Seq<Seq<char>>|
            exists|i: int| 0 <= i < files.len() && file_comps(#[trigger] files[i]) == p,
    )
}

/// `p` is a strict prefix of `q`.
pub open spec fn is_sprefix(p: Seq<Seq<char>>, q: Seq<Seq<char>>) -> bool {
    p.len() < q.len() && p == q.subrange(0, p.len() as int)
}

/// No path of the set strictly prefixes another: no file sits where
/// another file needs a directory.
pub open spec fn prefix_free(ff: Set<Seq<Seq<char>>>) -> bool {
    forall|p: Seq<Seq<char>>, q: Seq<Seq<char>>|
        ff.contains(p) && ff.contains(q) ==> !is_sprefix(p, q)
}

/// The paths continuing below a root component `n`.
pub open spec fn sub_paths(ff: Set<Seq<Seq<char>>>, n: Seq<char>) -> Set<Seq<Seq<char>>> {
    Set::new(|q: Seq<Seq<char>>| ff.contains(seq![n] + q))
}

/// The forest realizes a path set: every leaf sits at a full path of the
/// set, every directory starts a longer path and is the only directory
/// of its name at its level, and its children realize the paths below.
pub open spec fn realizes(items: Seq<FileNode>, ff: Set<Seq<Seq<char>>>) -> bool
    decreases items,
{
    forall|j: int|
        0 <= j < items.len() ==> {
            let nd = #[trigger] items[j];
            &&& (nd.children.len() == 0 ==> ff.contains(seq![nd.name]))
            &&& (nd.children.len() > 0 ==> {
                &&& (exists|p: Seq<Seq<char>>|
                    ff.contains(p) && p.len() >= 2 && (#[trigger] p[0]) == nd.name)
                &&& (forall|k: int|
                    0 <= k < items.len() && k != j ==> ((#[trigger] items[k]).name != nd.name
                        || items[k].children.len() == 0))
                &&& realizes(nd.children, sub_paths(ff, nd.name))
            })
        }
}

/// Realization survives growing the path set.
proof fn lemma_realizes_mono(items: Seq<FileNode>, a: Set<Seq<Seq<char>>>, b: Set<Seq<Seq<char>>>)
    requires
        realizes(items, a),
        a.subset_of(b),
    ensures
        realizes(items, b),
    decreases items,
{
    assert forall|j: int| 0 <= j < items.len() implies {
        let nd = #[trigger] items[j];
        &&& (nd.children.len() == 0 ==> b.contains(seq![nd.name]))
        &&& (nd.children.len() > 0 ==> {
            &&& (exists|p: Seq<Seq<char>>|
                b.contains(p) && p.len() >= 2 && (#[trigger] p[0]) == nd.name)
            &&& (forall|k: int|
                0 <= k < items.len() && k != j ==> ((#[trigger] items[k]).name != nd.name
                    || items[k].children.len() == 0))
            &&& realizes(nd.children, sub_paths(b, nd.name))
        })
    } by {
        let nd = items[j];
        if nd.children.len() > 0 {
            let p = choose|p: Seq<Seq<char>>|
                a.contains(p) && p.len() >= 2 && (#[trigger] p[0]) == nd.name;
            assert(b.contains(p));
            assert(sub_paths(a, nd.name).subset_of(sub_paths(b, nd.name)));
            lemma_realizes_mono(nd.children, sub_paths(a, nd.name), sub_paths(b, nd.name));
        }
    }
}

/// Prefix freedom survives descending below one component.
proof fn lemma_prefix_free_sub(ff: Set<Seq<Seq<char>>>, n: Seq<char>)
    requires
        prefix_free(ff),
    ensures
        prefix_free(sub_paths(ff, n)),
{
    assert forall|p: Seq<Seq<char>>, q: Seq<Seq<char>>|
        sub_paths(ff, n).contains(p) && sub_paths(ff, n).contains(q) implies !is_sprefix(
        p,
        q,
    ) by {
        if is_sprefix(p, q) {
            assert(is_sprefix(seq![n] + p, seq![n] + q)) by {
                assert((seq![n] + p) =~= (seq![n] + q).subrange(0, (seq![n] + p).len() as int));
            }
        }
    }
}

/// Descending the inserted path commutes with inserting it into the set.
proof fn lemma_sub_insert(ff: Set<Seq<Seq<char>>>, cs: Seq<Seq<char>>)
    requires
        cs.len() >= 1,
    ensures
        sub_paths(ff.insert(cs), cs[0]) =~= sub_paths(ff, cs[0]).insert(
            cs.subrange(1, cs.len() as int),
        ),
{
    let n = cs[0];
    let rest = cs.subrange(1, cs.len() as int);
    assert(seq![n] + rest =~= cs);
    assert forall|q: Seq<Seq<char>>| #[trigger] sub_paths(ff.insert(cs), n).contains(q) implies
        sub_paths(ff, n).insert(rest).contains(q) by {
        if seq![n] + q == cs {
            assert(q =~= rest);
        }
    }
    assert forall|q: Seq<Seq<char>>| #[trigger] sub_paths(ff, n).insert(rest).contains(q) implies
        sub_paths(ff.insert(cs), n).contains(q) by {
        if q == rest {
            assert(ff.insert(cs).contains(seq![n] + q));
        }
    }
}

/// In a realized forest, a match for the head of a fresh path is the
/// unique directory of that name.
proof fn lemma_match_unique_dir(items: Seq<FileNode>, ff: Set<Seq<Seq<char>>>, cs: Seq<Seq<char>>)
    requires
        realizes(items, ff),
        prefix_free(ff.insert(cs)),
        cs.len() >= 2,
        last_name_idx(items, cs[0]) is Some,
    ensures
        ({
            let i = last_name_idx(items, cs[0]).unwrap();
            &&& 0 <= i < items.len()
            &&& items[i].name == cs[0]
            &&& items[i].children.len() > 0
            &&& forall|j: int|
                0 <= j < items.len() && j != i ==> (#[trigger] items[j]).name != cs[0]
        }),
{
    let n = cs[0];
    lemma_last_name_some(items, n);
    let i = last_name_idx(items, n).unwrap();
    assert(!ff.insert(cs).contains(seq![n])) by {
        if ff.insert(cs).contains(seq![n]) {
            assert(is_sprefix(seq![n], cs)) by {
                assert(seq![n] =~= cs.subrange(0, 1));
            }
        }
    }
    if items[i].children.len() == 0 {
        assert(ff.contains(seq![n]));
        assert(false);
    }
    assert forall|j: int| 0 <= j < items.len() && j != i implies (#[trigger] items[j]).name
        != n by {
        if items[j].name == n {
            if items[j].children.len() == 0 {
                assert(ff.contains(seq![n]));
            } else {
                // two directories of one name are ruled out by realization
                assert(items[i].name != items[j].name || items[i].children.len() == 0);
            }
        }
    }
}

/// A fresh path descends through directories only: the clear-path
/// condition of the insertion lemmas.
proof fn lemma_realizes_clear(items: Seq<FileNode>, ff: Set<Seq<Seq<char>>>, cs: Seq<Seq<char>>)
    requires
        realizes(items, ff),
        prefix_free(ff.insert(cs)),
        cs.len() >= 1,
    ensures
        path_clear(items, cs.drop_last()),
    decreases cs.len(),
{
    let names = cs.drop_last();
    if names.len() > 0 {
        let n = names[0];
        assert(n == cs[0]);
        match last_name_idx(items, n) {
            None => {},
            Some(i) => {
                lemma_match_unique_dir(items, ff, cs);
                let rest = cs.subrange(1, cs.len() as int);
                lemma_sub_insert(ff, cs);
                lemma_prefix_free_sub(ff.insert(cs), n);
                assert(prefix_free(sub_paths(ff, n).insert(rest)));
                lemma_realizes_clear(items[i].children, sub_paths(ff, n), rest);
                assert(rest.drop_last() =~= names.subrange(1, names.len() as int));
            },
        }
    }
}

} // verus!

verus! {

/// Inserting a file along its fresh path keeps the forest realized, now
/// for the grown path set.
proof fn lemma_realizes_add(
    items: Seq<FileNode>,
    ff: Set<Seq<Seq<char>>>,
    cs: Seq<Seq<char>>,
    leaf: FileNode,
)
    requires
        realizes(items, ff),
        prefix_free(ff.insert(cs)),
        cs.len() >= 1,
        leaf.children.len() == 0,
        leaf.name == cs.last(),
    ensures
        realizes(spec_add_file(items, cs.drop_last(), leaf), ff.insert(cs)),
    decreases cs.len(),
{
    let names = cs.drop_last();
    let out = spec_add_file(items, names, leaf);
    let ff2 = ff.insert(cs);
    assert(ff.subset_of(ff2));
    lemma_realizes_mono(items, ff, ff2);
    if names.len() == 0 {
        assert(out == items.push(leaf));
        assert(cs =~= seq![leaf.name]);
        assert(ff2.contains(seq![leaf.name]));
        assert forall|j: int| 0 <= j < out.len() implies {
            let nd = #[trigger] out[j];
            &&& (nd.children.len() == 0 ==> ff2.contains(seq![nd.name]))
            &&& (nd.children.len() > 0 ==> {
                &&& (exists|p: Seq<Seq<char>>|
                    ff2.contains(p) && p.len() >= 2 && (#[trigger] p[0]) == nd.name)
                &&& (forall|k: int|
                    0 <= k < out.len() && k != j ==> ((#[trigger] out[k]).name != nd.name
                        || out[k].children.len() == 0))
                &&& realizes(nd.children, sub_paths(ff2, nd.name))
            })
        } by {
            if j < items.len() {
                assert(out[j] == items[j]);
                let nd = items[j];
                if nd.children.len() > 0 {
                    assert forall|k: int|
                        0 <= k < out.len() && k != j implies ((#[trigger] out[k]).name != nd.name
                            || out[k].children.len() == 0) by {
                        if k < items.len() {
                            assert(out[k] == items[k]);
                        } else {
                            assert(out[k] == leaf);
                        }
                    }
                }
            } else {
                assert(out[j] == leaf);
            }
        }
    } else {
        let n = names[0];
        let rest = cs.subrange(1, cs.len() as int);
        assert(n == cs[0]);
        assert(rest.drop_last() =~= names.subrange(1, names.len() as int));
        assert(rest.last() == cs.last());
        lemma_sub_insert(ff, cs);
        lemma_prefix_free_sub(ff2, n);
        assert(prefix_free(sub_paths(ff, n).insert(rest)));
        match last_name_idx(items, n) {
            Some(i) => {
                lemma_match_unique_dir(items, ff, cs);
                let bumped = bump_matching(items, n, leaf.size);
                let kid = spec_add_file(items[i].children, names.subrange(1, names.len() as int), leaf);
                let target = FileNode { children: kid, ..bumped[i] };
                assert(out == bumped.update(i, target));
                assert(realizes(items[i].children, sub_paths(ff, n)));
                lemma_realizes_add(items[i].children, sub_paths(ff, n), rest, leaf);
                assert(realizes(kid, sub_paths(ff2, n)));
                assert(target.children.len() > 0) by {
                    lemma_add_file_len(items[i].children, names.subrange(1, names.len() as int), leaf);
                }
                assert forall|j: int| 0 <= j < out.len() implies {
                    let nd = #[trigger] out[j];
                    &&& (nd.children.len() == 0 ==> ff2.contains(seq![nd.name]))
                    &&& (nd.children.len() > 0 ==> {
                        &&& (exists|p: Seq<Seq<char>>|
                            ff2.contains(p) && p.len() >= 2 && (#[trigger] p[0]) == nd.name)
                        &&& (forall|k: int|
                            0 <= k < out.len() && k != j ==> ((#[trigger] out[k]).name != nd.name
                                || out[k].children.len() == 0))
                        &&& realizes(nd.children, sub_paths(ff2, nd.name))
                    })
                } by {
                    if j != i {
                        assert(bumped[j] == items[j]);
                        assert(out[j] == items[j]);
                        let nd = items[j];
                        if nd.children.len() > 0 {
                            assert forall|k: int|
                                0 <= k < out.len() && k != j implies ((#[trigger] out[k]).name
                                    != nd.name || out[k].children.len() == 0) by {
                                if k == i {
                                    assert(out[k] == target);
                                    assert(nd.name != n);
                                } else {
                                    assert(out[k] == items[k]);
                                }
                            }
                        }
                    } else {
                        assert(out[j] == target);
                        assert(target.name == n);
                        assert(ff2.contains(cs) && cs.len() >= 2 && cs[0] == target.name);
                        assert forall|k: int|
                            0 <= k < out.len() && k != j implies ((#[trigger] out[k]).name
                                != target.name || out[k].children.len() == 0) by {
                            assert(out[k] == items[k]);
                        }
                    }
                }
            },
            None => {
                lemma_last_name_none(items, n);
                let kid = spec_add_file(
                    Seq::<FileNode>::empty(),
                    names.subrange(1, names.len() as int),
                    leaf,
                );
                let target = FileNode { children: kid, ..fresh_dir(n, leaf.size, leaf.op) };
                assert(out == items.push(target));
                assert(realizes(Seq::<FileNode>::empty(), sub_paths(ff, n)));
                lemma_realizes_add(Seq::<FileNode>::empty(), sub_paths(ff, n), rest, leaf);
                assert(realizes(kid, sub_paths(ff2, n)));
                assert(target.children.len() > 0) by {
                    lemma_add_file_len(
                        Seq::<FileNode>::empty(),
                        names.subrange(1, names.len() as int),
                        leaf,
                    );
                }
                assert forall|j: int| 0 <= j < out.len() implies {
                    let nd = #[trigger] out[j];
                    &&& (nd.children.len() == 0 ==> ff2.contains(seq![nd.name]))
                    &&& (nd.children.len() > 0 ==> {
                        &&& (exists|p: Seq<Seq<char>>|
                            ff2.contains(p) && p.len() >= 2 && (#[trigger] p[0]) == nd.name)
                        &&& (forall|k: int|
                            0 <= k < out.len() && k != j ==> ((#[trigger] out[k]).name != nd.name
                                || out[k].children.len() == 0))
                        &&& realizes(nd.children, sub_paths(ff2, nd.name))
                    })
                } by {
                    if j < items.len() {
                        assert(out[j] == items[j]);
                        let nd = items[j];
                        if nd.children.len() > 0 {
                            assert forall|k: int|
                                0 <= k < out.len() && k != j implies ((#[trigger] out[k]).name
                                    != nd.name || out[k].children.len() == 0) by {
                                if k < items.len() {
                                    assert(out[k] == items[k]);
                                } else {
                                    assert(out[k] == target);
                                    assert(items[j].name != n);
                                }
                            }
                        }
                    } else {
                        assert(out[j] == target);
                        assert(target.name == n);
                        assert(ff2.contains(cs) && cs.len() >= 2 && cs[0] == target.name);
                        assert forall|k: int|
                            0 <= k < out.len() && k != j implies ((#[trigger] out[k]).name
                                != target.name || out[k].children.len() == 0) by {
                            assert(out[k] == items[k]);
                            assert(items[k].name != n);
                        }
                    }
                }
            },
        }
    }
}

} // verus!

verus! {

proof fn lemma_comp_paths_drop(files: Seq<FileInfoV>)
    requires
        files.len() > 0,
    ensures
        comp_paths(files) =~= comp_paths(files.drop_last()).insert(file_comps(files.last())),
        comp_paths(files.drop_last()).subset_of(comp_paths(files)),
{
    let prev = files.drop_last();
    assert forall|p: Seq<Seq<char>>| #[trigger] comp_paths(files).contains(p) implies comp_paths(
        prev,
    ).insert(file_comps(files.last())).contains(p) by {
        let i = choose|i: int| 0 <= i < files.len() && file_comps(#[trigger] files[i]) == p;
        if i < files.len() - 1 {
            assert(prev[i] == files[i]);
            assert(file_comps(prev[i]) == p);
        }
    }
    assert forall|p: Seq<Seq<char>>|
        comp_paths(prev).insert(file_comps(files.last())).contains(p) implies #[trigger] comp_paths(
        files,
    ).contains(p) by {
        if p == file_comps(files.last()) {
            assert(file_comps(files[files.len() - 1]) == p);
        } else {
            let i = choose|i: int| 0 <= i < prev.len() && file_comps(#[trigger] prev[i]) == p;
            assert(files[i] == prev[i]);
            assert(file_comps(files[i]) == p);
        }
    }
    assert forall|p: Seq<Seq<char>>| #[trigger] comp_paths(prev).contains(p) implies comp_paths(
        files,
    ).contains(p) by {
        let i = choose|i: int| 0 <= i < prev.len() && file_comps(#[trigger] prev[i]) == p;
        assert(files[i] == prev[i]);
        assert(file_comps(files[i]) == p);
    }
}

/// The built tree realizes the files' path set, every directory's size
/// is the bytes of the files beneath it, and no node outgrows the total.
proof fn lemma_file_tree_realized(files: Seq<FileInfoV>, summaries: Seq<SummaryV>)
    requires
        prefix_free(comp_paths(files)),
        sum_file_sizes(files) <= u64::MAX,
    ensures
        realizes(spec_file_tree(files, summaries), comp_paths(files)),
        forest_sized(spec_file_tree(files, summaries)),
        forest_sizes_le(spec_file_tree(files, summaries), sum_file_sizes(files)),
    decreases files.len(),
{
    let tree = spec_file_tree(files, summaries);
    if files.len() == 0 {
        assert(forest_sizes_le(tree, 0));
    } else {
        let prev = files.drop_last();
        let f = files.last();
        let cs = file_comps(f);
        let leaf = leaf_node(f, summaries);
        let prev_tree = spec_file_tree(prev, summaries);
        lemma_comp_paths_drop(files);
        assert(prefix_free(comp_paths(prev))) by {
            assert forall|p: Seq<Seq<char>>, q: Seq<Seq<char>>|
                comp_paths(prev).contains(p) && comp_paths(prev).contains(q) implies !is_sprefix(
                p,
                q,
            ) by {
                assert(comp_paths(files).contains(p) && comp_paths(files).contains(q));
            }
        }
        lemma_sum_nonneg(prev);
        assert(sum_file_sizes(prev) + f.size == sum_file_sizes(files));
        lemma_file_tree_realized(prev, summaries);
        crate::strops::lemma_split_len(f.path, seq!['/']);
        assert(comp_paths(files).contains(cs)) by {
            assert(file_comps(files[files.len() - 1]) == cs);
        }
        assert(prefix_free(comp_paths(prev).insert(cs))) by {
            assert(comp_paths(prev).insert(cs) =~= comp_paths(files));
        }
        lemma_realizes_add(prev_tree, comp_paths(prev), cs, leaf);
        assert(realizes(tree, comp_paths(prev).insert(cs)));
        lemma_realizes_mono(tree, comp_paths(prev).insert(cs), comp_paths(files));
        lemma_realizes_clear(prev_tree, comp_paths(prev), cs);
        lemma_add_file_sized(prev_tree, cs.drop_last(), leaf, sum_file_sizes(prev));
        lemma_add_file_bound(prev_tree, cs.drop_last(), leaf, sum_file_sizes(prev));
    }
}

/// When no file's path strictly prefixes another's, every directory of
/// every layer tree carries as its size exactly the bytes of the files
/// beneath it.
pub proof fn lemma_file_tree_dir_sizes(files: Seq<FileInfoV>, summaries: Seq<SummaryV>)
    requires
        prefix_free(comp_paths(files)),
        sum_file_sizes(files) <= u64::MAX,
    ensures
        forest_sized(spec_file_tree(files, summaries)),
{
    lemma_file_tree_realized(files, summaries);
}

} // verus!

verus! {

/// First position in the forest whose node carries `name`, if any.
pub open spec fn first_name_idx(items: Seq<FileNode>, name: Seq<char>) -> Option<int>
    decreases items.len(),
{
    if items.len() == 0 {
        None
    } else if items.first().name == name {
        Some(0)
    } else {
        match first_name_idx(items.subrange(1, items.len() as int), name) {
            Some(k) => Some(k + 1),
            None => None,
        }
    }
}

proof fn lemma_first_name_some(items: Seq<FileNode>, name: Seq<char>)
    ensures
        match first_name_idx(items, name) {
            Some(m) => 0 <= m < items.len() && items[m].name == name && forall|j: int|
                0 <= j < m ==> (#[trigger] items[j]).name != name,
            None => forall|j: int| 0 <= j < items.len() ==> (#[trigger] items[j]).name != name,
        },
    decreases items.len(),
{
    if items.len() > 0 {
        let tail = items.subrange(1, items.len() as int);
        lemma_first_name_some(tail, name);
        if items.first().name != name {
            assert forall|j: int| 1 <= j < items.len() implies items[j] == tail[j - 1] by {}
        }
    }
}

/// Unfold a search one level: locate the first node of the head name,
/// return it or continue below it.
proof fn lemma_find_unfold(items: Seq<FileNode>, p: Seq<Seq<char>>)
    requires
        p.len() >= 1,
    ensures
        find_in_tree(items, p) == match first_name_idx(items, p[0]) {
            None => None::<FileNode>,
            Some(m) => if p.len() == 1 {
                Some(items[m])
            } else {
                find_in_tree(items[m].children, p.subrange(1, p.len() as int))
            },
        },
    decreases items.len(),
{
    lemma_first_name_some(items, p[0]);
    if items.len() > 0 && items[0].name != p[0] {
        let tail = items.subrange(1, items.len() as int);
        lemma_find_unfold(tail, p);
        match first_name_idx(items, p[0]) {
            Some(m) => {
                assert(tail[m - 1] == items[m]);
            },
            None => {},
        }
    }
}

/// An insertion along a clear path leaves every found leaf exactly where
/// and as it was.
proof fn lemma_add_file_find_preserved(
    items: Seq<FileNode>,
    names: Seq<Seq<char>>,
    leaf: FileNode,
    p: Seq<Seq<char>>,
)
    requires
        path_clear(items, names),
        p.len() >= 1,
        find_in_tree(items, p) is Some,
        find_in_tree(items, p).unwrap().children.len() == 0,
    ensures
        find_in_tree(spec_add_file(items, names, leaf), p) == find_in_tree(items, p),
    decreases names.len(),
{
    let out = spec_add_file(items, names, leaf);
    lemma_find_unfold(items, p);
    lemma_first_name_some(items, p[0]);
    let m = first_name_idx(items, p[0]).unwrap();
    if names.len() == 0 {
        assert(out == items.push(leaf));
        assert forall|j: int| 0 <= j < m implies (#[trigger] out[j]).name != p[0] by {
            assert(out[j] == items[j]);
        }
        assert(out[m] == items[m]);
        lemma_find_at_first(out, p, m);
    } else {
        let n = names[0];
        let rest = names.subrange(1, names.len() as int);
        match last_name_idx(items, n) {
            Some(i) => {
                lemma_last_name_some(items, n);
                let bumped = bump_matching(items, n, leaf.size);
                let kid = spec_add_file(items[i].children, rest, leaf);
                let target = FileNode { children: kid, ..bumped[i] };
                assert(out == bumped.update(i, target));
                assert forall|j: int| 0 <= j < items.len() implies (#[trigger] out[j]).name
                    == items[j].name by {}
                assert forall|j: int| 0 <= j < m implies (#[trigger] out[j]).name != p[0] by {}
                assert(out[m].name == p[0]);
                lemma_find_at_first(out, p, m);
                if m != i {
                    assert(items[m].name != n);
                    assert(bumped[m] == items[m]);
                    assert(out[m] == items[m]);
                } else {
                    assert(p[0] == n);
                    if p.len() == 1 {
                        assert(find_in_tree(items, p) == Some(items[i]));
                        assert(false);
                    } else {
                        let pr = p.subrange(1, p.len() as int);
                        assert(out[m] == target);
                        lemma_add_file_find_preserved(items[i].children, rest, leaf, pr);
                    }
                }
            },
            None => {
                lemma_last_name_none(items, n);
                let kid = spec_add_file(Seq::<FileNode>::empty(), rest, leaf);
                let target = FileNode { children: kid, ..fresh_dir(n, leaf.size, leaf.op) };
                assert(out == items.push(target));
                assert forall|j: int| 0 <= j < m implies (#[trigger] out[j]).name != p[0] by {
                    assert(out[j] == items[j]);
                }
                assert(out[m] == items[m]);
                lemma_find_at_first(out, p, m);
            },
        }
    }
}

/// A fresh path's final level holds no node of the leaf's name yet.
proof fn lemma_realizes_fresh(items: Seq<FileNode>, ff: Set<Seq<Seq<char>>>, cs: Seq<Seq<char>>)
    requires
        realizes(items, ff),
        prefix_free(ff.insert(cs)),
        !ff.contains(cs),
        cs.len() >= 1,
    ensures
        leaf_fresh(items, cs.drop_last(), cs.last()),
    decreases cs.len(),
{
    let names = cs.drop_last();
    if names.len() == 0 {
        assert forall|j: int| 0 <= j < items.len() implies (#[trigger] items[j]).name
            != cs.last() by {
            let nd = items[j];
            if nd.name == cs.last() {
                if nd.children.len() == 0 {
                    assert(ff.contains(seq![nd.name]));
                    assert(seq![nd.name] =~= cs);
                } else {
                    let p = choose|p: Seq<Seq<char>>|
                        ff.contains(p) && p.len() >= 2 && (#[trigger] p[0]) == nd.name;
                    assert(is_sprefix(cs, p)) by {
                        assert(cs =~= p.subrange(0, 1));
                    }
                }
            }
        }
    } else {
        let n = names[0];
        match last_name_idx(items, n) {
            None => {},
            Some(i) => {
                lemma_match_unique_dir(items, ff, cs);
                let rest = cs.subrange(1, cs.len() as int);
                lemma_sub_insert(ff, cs);
                lemma_prefix_free_sub(ff.insert(cs), n);
                assert(!sub_paths(ff, n).contains(rest)) by {
                    if sub_paths(ff, n).contains(rest) {
                        assert(seq![n] + rest =~= cs);
                    }
                }
                lemma_realizes_fresh(items[i].children, sub_paths(ff, n), rest);
                assert(rest.drop_last() =~= names.subrange(1, names.len() as int));
            },
        }
    }
}

/// Distinct component paths.
pub open spec fn distinct_comp_paths(files: Seq<FileInfoV>) -> bool {
    forall|i: int, j: int|
        0 <= i < files.len() && 0 <= j < files.len() && i != j ==> file_comps(
            #[trigger] files[i],
        ) != file_comps(#[trigger] files[j])
}

/// When no file path strictly prefixes another and no path repeats,
/// every file of the layer is found in its tree at its own path, as the
/// leaf it entered with.
pub proof fn lemma_file_tree_leaves_reachable(files: Seq<FileInfoV>, summaries: Seq<SummaryV>)
    requires
        prefix_free(comp_paths(files)),
        distinct_comp_paths(files),
        sum_file_sizes(files) <= u64::MAX,
    ensures
        forall|i: int|
            0 <= i < files.len() ==> find_in_tree(
                spec_file_tree(files, summaries),
                file_comps(#[trigger] files[i]),
            ) == Some(leaf_node(files[i], summaries)),
    decreases files.len(),
{
    if files.len() > 0 {
        let prev = files.drop_last();
        let f = files.last();
        let cs = file_comps(f);
        let leaf = leaf_node(f, summaries);
        let prev_tree = spec_file_tree(prev, summaries);
        let tree = spec_file_tree(files, summaries);
        lemma_comp_paths_drop(files);
        assert(prefix_free(comp_paths(prev))) by {
            assert forall|p: Seq<Seq<char>>, q: Seq<Seq<char>>|
                comp_paths(prev).contains(p) && comp_paths(prev).contains(q) implies !is_sprefix(
                p,
                q,
            ) by {
                assert(comp_paths(files).contains(p) && comp_paths(files).contains(q));
            }
        }
        assert(distinct_comp_paths(prev)) by {
            assert forall|i: int, j: int|
                0 <= i < prev.len() && 0 <= j < prev.len() && i != j implies file_comps(
                #[trigger] prev[i],
            ) != file_comps(#[trigger] prev[j]) by {
                assert(prev[i] == files[i] && prev[j] == files[j]);
            }
        }
        lemma_sum_nonneg(prev);
        assert(sum_file_sizes(prev) + f.size == sum_file_sizes(files));
        lemma_file_tree_leaves_reachable(prev, summaries);
        lemma_file_tree_realized(prev, summaries);
        crate::strops::lemma_split_len(f.path, seq!['/']);
        assert(prefix_free(comp_paths(prev).insert(cs))) by {
            assert(comp_paths(prev).insert(cs) =~= comp_paths(files));
        }
        assert(!comp_paths(prev).contains(cs)) by {
            if comp_paths(prev).contains(cs) {
                let i = choose|i: int| 0 <= i < prev.len() && file_comps(#[trigger] prev[i]) == cs;
                assert(file_comps(files[i]) == file_comps(files[files.len() - 1]));
            }
        }
        lemma_realizes_clear(prev_tree, comp_paths(prev), cs);
        lemma_realizes_fresh(prev_tree, comp_paths(prev), cs);
        lemma_add_file_find(prev_tree, cs.drop_last(), leaf);
        assert(cs.drop_last().push(cs.last()) =~= cs);
        assert forall|i: int| 0 <= i < files.len() implies find_in_tree(
            tree,
            file_comps(#[trigger] files[i]),
        ) == Some(leaf_node(files[i], summaries)) by {
            if i < files.len() - 1 {
                assert(prev[i] == files[i]);
                let pi = file_comps(files[i]);
                crate::strops::lemma_split_len(files[i].path, seq!['/']);
                assert(find_in_tree(prev_tree, pi) == Some(leaf_node(prev[i], summaries)));
                lemma_add_file_find_preserved(prev_tree, cs.drop_last(), leaf, pi);
            } else {
                assert(find_in_tree(tree, cs) == Some(leaf));
            }
        }
    }
}

} // verus!
