//! The cross-layer diff engine: walking the image history, binding
//! non-empty entries to manifest layers, recording modified and removed
//! files against earlier layer trees, and assembling the analysis result.

use vstd::prelude::*;
use vstd::multiset::Multiset;

use crate::layer::{ImageLayerInfo, LayerInfoV};
use crate::oci_image::{
    convert_files_to_file_tree, file_views, find_file_tree_item, find_in_tree, nodes_of,
    path_views, spec_file_tree, string_views, sum_file_sizes, summary_views, FileInfoV, FileNode,
    FileTreeItem, ImageFileInfo, ImageFileSummary, ImageHistory, ImageLayer, ImageManifestLayer,
    Op, SummaryV,
};
use crate::strops::{spec_split, split_chars};

verus! {

/// Mathematical model of one result layer.
#[verifier::ext_equal]
pub ghost struct LayerV {
    pub created: Seq<char>,
    pub cmd: Seq<char>,
    pub empty: bool,
    pub digest: Seq<char>,
    pub media_type: Seq<char>,
    pub size: u64,
    pub unpack_size: u64,
}

impl View for ImageLayer {
    type V = LayerV;

    open spec fn view(&self) -> LayerV {
        LayerV {
            created: self.created@,
            cmd: self.cmd@,
            empty: self.empty,
            digest: self.digest@,
            media_type: self.media_type@,
            size: self.size,
            unpack_size: self.unpack_size,
        }
    }
}

/// Models of a list of result layers.
pub open spec fn layer_views(layers: Seq<ImageLayer>) -> Seq<LayerV> {
    layers.map_values(|l: ImageLayer| l@)
}

/// Models of a list of layer trees.
pub open spec fn forests_of(list: Seq<Vec<FileTreeItem>>) -> Seq<Seq<FileNode>> {
    list.map_values(|v: Vec<FileTreeItem>| nodes_of(v@))
}

/// Models of a list of decoded layers.
pub open spec fn info_views(list: Seq<ImageLayerInfo>) -> Seq<LayerInfoV> {
    list.map_values(|l: ImageLayerInfo| l@)
}

/// A history entry marks an empty layer when `empty_layer` is `true`.
pub open spec fn hist_is_empty(h: ImageHistory) -> bool {
    h.empty_layer == Some(true)
}

/// The command recorded for a history entry, empty when absent.
pub open spec fn hist_cmd(h: ImageHistory) -> Seq<char> {
    match h.created_by {
        Some(v) => v@,
        None => Seq::<char>::empty(),
    }
}

/// The latest earlier tree holding `path`, with the node found there.
pub open spec fn last_tree_match(trees: Seq<Seq<FileNode>>, path: Seq<Seq<char>>) -> Option<
    (int, FileNode),
>
    decreases trees.len(),
{
    if trees.len() == 0 {
        None
    } else {
        match find_in_tree(trees.last(), path) {
            Some(n) => Some(((trees.len() - 1) as int, n)),
            None => last_tree_match(trees.drop_last(), path),
        }
    }
}

/// A successful tree match points into the list and reproduces the find.
pub proof fn lemma_last_tree_match(trees: Seq<Seq<FileNode>>, path: Seq<Seq<char>>)
    ensures
        match last_tree_match(trees, path) {
            Some(jm) => 0 <= jm.0 < trees.len() && find_in_tree(trees[jm.0], path) == Some(jm.1),
            None => true,
        },
    decreases trees.len(),
{
    if trees.len() > 0 {
        lemma_last_tree_match(trees.drop_last(), path);
        if find_in_tree(trees.last(), path) is None {
            match last_tree_match(trees.drop_last(), path) {
                Some(jm) => {
                    assert(trees.drop_last()[jm.0] == trees[jm.0]);
                },
                None => {},
            }
        }
    }
}

/// The summary entry one file produces against earlier trees: removed for
/// a whiteout (carrying the size found in the latest matching tree),
/// modified otherwise; nothing when no earlier tree has the path.
pub open spec fn spec_summary_entry(f: FileInfoV, trees: Seq<Seq<FileNode>>, li: usize) -> Option<
    SummaryV,
> {
    match last_tree_match(trees, spec_split(f.path, seq!['/'])) {
        Some(jm) => Some(
            if f.is_whiteout is Some {
                SummaryV {
                    layer_index: li,
                    op: Op::Removed,
                    info: FileInfoV { size: jm.1.size, ..f },
                }
            } else {
                SummaryV { layer_index: li, op: Op::Modified, info: f }
            },
        ),
        None => None,
    }
}

/// The summary entries a file listing produces, in file order.
pub open spec fn spec_file_summaries(
    files: Seq<FileInfoV>,
    trees: Seq<Seq<FileNode>>,
    li: usize,
) -> Seq<SummaryV>
    decreases files.len(),
{
    if files.len() == 0 {
        Seq::<SummaryV>::empty()
    } else {
        spec_file_summaries(files.drop_last(), trees, li) + match spec_summary_entry(
            files.last(),
            trees,
            li,
        ) {
            Some(e) => seq![e],
            None => Seq::<SummaryV>::empty(),
        }
    }
}

fn str_refs<'a>(v: &'a Vec<String>) -> (r: Vec<&'a str>)
    ensures
        path_views(r@) == string_views(v@),
{
    let mut r: Vec<&str> = Vec::new();
    let mut i: usize = 0;
    while i < v.len()
        invariant
            i <= v@.len(),
            r@.len() == i,
            forall|j: int| 0 <= j < i ==> (#[trigger] r@[j])@ == v@[j]@,
        decreases v@.len() - i,
    {
        r.push(v[i].as_str());
        i = i + 1;
    }
    proof {
        assert(path_views(r@) =~= string_views(v@));
    }
    r
}

/// Record, for every file of layer `layer_index` that some earlier tree
/// already holds, a modification or removal entry.
pub fn add_to_file_summary(
    file_summary_list: &mut Vec<ImageFileSummary>,
    layer_index: usize,
    files: &Vec<ImageFileInfo>,
    file_tree_list: &Vec<Vec<FileTreeItem>>,
)
    ensures
        summary_views(final(file_summary_list)@) == summary_views(old(file_summary_list)@)
            + spec_file_summaries(
            file_views(files@),
            forests_of(file_tree_list@),
            layer_index,
        ),
{
    let ghost orig = summary_views(file_summary_list@);
    let ghost fv = file_views(files@);
    let ghost forests = forests_of(file_tree_list@);
    let seps: Vec<char> = vec!['/'];
    proof {
        assert(seps@ =~= seq!['/']);
        assert(fv.subrange(0, 0) =~= Seq::<FileInfoV>::empty());
        assert(summary_views(file_summary_list@) =~= orig + spec_file_summaries(
            fv.subrange(0, 0),
            forests,
            layer_index,
        ));
    }
    let mut i: usize = 0;
    while i < files.len()
        invariant
            i <= files@.len(),
            seps@ == seq!['/'],
            fv == file_views(files@),
            forests == forests_of(file_tree_list@),
            summary_views(file_summary_list@) == orig + spec_file_summaries(
                fv.subrange(0, i as int),
                forests,
                layer_index,
            ),
        decreases files@.len() - i,
    {
        let ghost path = spec_split(files@[i as int]@.path, seq!['/']);
        proof {
            assert(fv.subrange(0, i + 1).drop_last() =~= fv.subrange(0, i as int));
            assert(fv.subrange(0, i + 1).last() == files@[i as int]@);
        }
        let file = &files[i];
        let comps = split_chars(file.path.as_str(), &seps);
        let mut j: usize = file_tree_list.len();
        let mut found: Option<FileTreeItem> = None;
        let ghost mut fj: int = 0;
        proof {
            assert(forests.subrange(0, j as int) =~= forests);
        }
        while j > 0 && found.is_none()
            invariant
                j <= file_tree_list@.len(),
                forests == forests_of(file_tree_list@),
                path == spec_split(files@[i as int]@.path, seq!['/']),
                i < files@.len(),
                comps@.len() > 0 ==> true,
                string_views(comps@) == path,
                match found {
                    Some(it) => last_tree_match(forests, path) == Some((fj, it@)),
                    None => last_tree_match(forests, path) == last_tree_match(
                        forests.subrange(0, j as int),
                        path,
                    ),
                },
            decreases j,
        {
            j = j - 1;
            let refs = str_refs(&comps);
            let r = find_file_tree_item(&file_tree_list[j], refs);
            proof {
                let pre = forests.subrange(0, j + 1);
                assert(pre.last() == forests[j as int]);
                assert(pre.drop_last() =~= forests.subrange(0, j as int));
                assert(forests[j as int] == nodes_of(file_tree_list@[j as int]@));
            }
            if r.is_some() {
                found = r;
                proof {
                    fj = j as int;
                }
            }
        }
        match found {
            Some(it) => {
                let op = if file.is_whiteout.is_some() {
                    Op::Removed
                } else {
                    Op::Modified
                };
                let mut info = file.clone();
                if file.is_whiteout.is_some() {
                    info.size = it.size;
                }
                let entry = ImageFileSummary { layer_index, op, info };
                proof {
                    assert(it@.size == it.size);
                    assert(entry@ =~= spec_summary_entry(
                        files@[i as int]@,
                        forests,
                        layer_index,
                    ).unwrap());
                }
                let ghost before = summary_views(file_summary_list@);
                file_summary_list.push(entry);
                proof {
                    assert(fv.subrange(0, i + 1).drop_last() =~= fv.subrange(0, i as int));
                    assert(fv.subrange(0, i + 1).last() == files@[i as int]@);
                    assert(summary_views(file_summary_list@) =~= before.push(entry@));
                    assert(spec_summary_entry(files@[i as int]@, forests, layer_index) == Some(
                        entry@,
                    ));
                    assert(spec_file_summaries(fv.subrange(0, i + 1), forests, layer_index)
                        =~= spec_file_summaries(fv.subrange(0, i as int), forests, layer_index)
                        + seq![entry@]);
                    assert(summary_views(file_summary_list@) =~= orig + spec_file_summaries(
                        fv.subrange(0, i + 1),
                        forests,
                        layer_index,
                    ));
                }
            },
            None => {
                proof {
                    assert(fv.subrange(0, i + 1).drop_last() =~= fv.subrange(0, i as int));
                    assert(fv.subrange(0, i + 1).last() == files@[i as int]@);
                    assert(forests.subrange(0, 0) =~= Seq::<Seq<FileNode>>::empty());
                    assert(last_tree_match(forests, path) is None);
                    assert(summary_views(file_summary_list@) =~= orig + spec_file_summaries(
                        fv.subrange(0, i + 1),
                        forests,
                        layer_index,
                    ));
                }
            },
        }
        i = i + 1;
    }
    proof {
        assert(fv.subrange(0, files@.len() as int) =~= fv);
    }
}

} // verus!

verus! {

/// The analyzer's result: the image identity, one layer record per
/// history entry, the aggregate sizes, one file tree per history entry,
/// and the modification/removal summary.
#[derive(Debug, PartialEq)]
pub struct DockerAnalyzeResult {
    pub name: String,
    pub arch: String,
    pub os: String,
    pub layers: Vec<ImageLayer>,
    pub size: u64,
    pub total_size: u64,
    pub file_tree_list: Vec<Vec<FileTreeItem>>,
    pub file_summary_list: Vec<ImageFileSummary>,
}

/// The diff engine's state after processing a prefix of the history.
#[verifier::ext_equal]
pub ghost struct DiffState {
    pub trees: Seq<Seq<FileNode>>,
    pub sums: Seq<SummaryV>,
    pub layers: Seq<LayerV>,
    pub size: int,
    pub total: int,
    pub idx: int,
}

/// The layer record of an empty or unbound history entry.
pub open spec fn spec_empty_layer(h: ImageHistory, empty: bool) -> LayerV {
    LayerV {
        created: h.created@,
        cmd: hist_cmd(h),
        empty: empty,
        digest: Seq::<char>::empty(),
        media_type: Seq::<char>::empty(),
        size: 0,
        unpack_size: 0,
    }
}

/// One step of the diff per history entry: an empty entry contributes an
/// empty tree and a zero layer; a non-empty entry binds the next manifest
/// layer, records summaries against all earlier trees (except for the
/// base layer), and builds its file tree.
pub open spec fn spec_diff(
    history: Seq<ImageHistory>,
    mlayers: Seq<ImageManifestLayer>,
    infos: Seq<LayerInfoV>,
    n: int,
) -> DiffState
    decreases n,
{
    if n <= 0 {
        DiffState {
            trees: Seq::<Seq<FileNode>>::empty(),
            sums: Seq::<SummaryV>::empty(),
            layers: Seq::<LayerV>::empty(),
            size: 0,
            total: 0,
            idx: 0,
        }
    } else {
        let st = spec_diff(history, mlayers, infos, n - 1);
        let h = history[n - 1];
        if hist_is_empty(h) {
            DiffState {
                trees: st.trees.push(Seq::<FileNode>::empty()),
                layers: st.layers.push(spec_empty_layer(h, true)),
                ..st
            }
        } else if st.idx >= mlayers.len() || st.idx >= infos.len() {
            DiffState {
                trees: st.trees.push(Seq::<FileNode>::empty()),
                layers: st.layers.push(spec_empty_layer(h, false)),
                idx: st.idx + 1,
                ..st
            }
        } else {
            let ml = mlayers[st.idx];
            let info = infos[st.idx];
            let new_sums = if n - 1 != 0 {
                st.sums + spec_file_summaries(info.files, st.trees, (n - 1) as usize)
            } else {
                st.sums
            };
            DiffState {
                trees: st.trees.push(spec_file_tree(info.files, new_sums)),
                sums: new_sums,
                layers: st.layers.push(
                    LayerV {
                        created: h.created@,
                        cmd: hist_cmd(h),
                        empty: false,
                        digest: ml.digest@,
                        media_type: ml.media_type@,
                        size: ml.size,
                        unpack_size: info.unpack_size,
                    },
                ),
                size: st.size + ml.size,
                total: st.total + info.unpack_size,
                idx: st.idx + 1,
            }
        }
    }
}

/// Sum of the wire sizes of manifest layer descriptors.
pub open spec fn sum_manifest_sizes(layers: Seq<ImageManifestLayer>) -> int
    decreases layers.len(),
{
    if layers.len() == 0 {
        0
    } else {
        sum_manifest_sizes(layers.drop_last()) + layers.last().size
    }
}

/// Sum of the decompressed sizes of decoded layers.
pub open spec fn sum_unpack_sizes(infos: Seq<LayerInfoV>) -> int
    decreases infos.len(),
{
    if infos.len() == 0 {
        0
    } else {
        sum_unpack_sizes(infos.drop_last()) + infos.last().unpack_size
    }
}

pub proof fn lemma_sum_manifest_nonneg(layers: Seq<ImageManifestLayer>)
    ensures
        0 <= sum_manifest_sizes(layers),
    decreases layers.len(),
{
    if layers.len() > 0 {
        lemma_sum_manifest_nonneg(layers.drop_last());
    }
}

pub proof fn lemma_sum_manifest_prefix(layers: Seq<ImageManifestLayer>, i: int)
    requires
        0 <= i <= layers.len(),
    ensures
        sum_manifest_sizes(layers.subrange(0, i)) <= sum_manifest_sizes(layers),
    decreases layers.len() - i,
{
    if i == layers.len() {
        assert(layers.subrange(0, i) =~= layers);
    } else {
        lemma_sum_manifest_prefix(layers, i + 1);
        assert(layers.subrange(0, i + 1).drop_last() =~= layers.subrange(0, i));
        assert(layers.subrange(0, i + 1).last() == layers[i]);
    }
}

pub proof fn lemma_sum_unpack_nonneg(infos: Seq<LayerInfoV>)
    ensures
        0 <= sum_unpack_sizes(infos),
    decreases infos.len(),
{
    if infos.len() > 0 {
        lemma_sum_unpack_nonneg(infos.drop_last());
    }
}

pub proof fn lemma_sum_unpack_prefix(infos: Seq<LayerInfoV>, i: int)
    requires
        0 <= i <= infos.len(),
    ensures
        sum_unpack_sizes(infos.subrange(0, i)) <= sum_unpack_sizes(infos),
    decreases infos.len() - i,
{
    if i == infos.len() {
        assert(infos.subrange(0, i) =~= infos);
    } else {
        lemma_sum_unpack_prefix(infos, i + 1);
        assert(infos.subrange(0, i + 1).drop_last() =~= infos.subrange(0, i));
        assert(infos.subrange(0, i + 1).last() == infos[i]);
    }
}

/// The running sizes equal sums over the manifest prefix consumed so far.
pub proof fn lemma_diff_partial_sums(
    history: Seq<ImageHistory>,
    mlayers: Seq<ImageManifestLayer>,
    infos: Seq<LayerInfoV>,
    n: int,
)
    requires
        0 <= n,
    ensures
        ({
            let st = spec_diff(history, mlayers, infos, n);
            &&& 0 <= st.idx
            &&& 0 <= st.size
            &&& 0 <= st.total
            &&& st.size <= sum_manifest_sizes(mlayers.subrange(
                0,
                if st.idx <= mlayers.len() {
                    st.idx
                } else {
                    mlayers.len() as int
                },
            ))
            &&& st.total <= sum_unpack_sizes(infos.subrange(
                0,
                if st.idx <= infos.len() {
                    st.idx
                } else {
                    infos.len() as int
                },
            ))
            &&& st.size <= sum_manifest_sizes(mlayers)
            &&& st.total <= sum_unpack_sizes(infos)
        }),
    decreases n,
{
    let st = spec_diff(history, mlayers, infos, n);
    if n == 0 {
        lemma_sum_manifest_nonneg(mlayers);
        lemma_sum_unpack_nonneg(infos);
        assert(mlayers.subrange(0, 0) =~= Seq::<ImageManifestLayer>::empty());
        assert(infos.subrange(0, 0) =~= Seq::<LayerInfoV>::empty());
    } else {
        let prev = spec_diff(history, mlayers, infos, n - 1);
        lemma_diff_partial_sums(history, mlayers, infos, n - 1);
        let h = history[n - 1];
        if hist_is_empty(h) {
        } else if prev.idx >= mlayers.len() || prev.idx >= infos.len() {
            let mc = if prev.idx <= mlayers.len() { prev.idx } else { mlayers.len() as int };
            let mc2 = if st.idx <= mlayers.len() { st.idx } else { mlayers.len() as int };
            lemma_sum_manifest_prefix_mono(mlayers, mc, mc2);
            let ic = if prev.idx <= infos.len() { prev.idx } else { infos.len() as int };
            let ic2 = if st.idx <= infos.len() { st.idx } else { infos.len() as int };
            lemma_sum_unpack_prefix_mono(infos, ic, ic2);
        } else {
            assert(mlayers.subrange(0, prev.idx + 1).drop_last() =~= mlayers.subrange(
                0,
                prev.idx,
            ));
            assert(mlayers.subrange(0, prev.idx + 1).last() == mlayers[prev.idx]);
            assert(infos.subrange(0, prev.idx + 1).drop_last() =~= infos.subrange(0, prev.idx));
            assert(infos.subrange(0, prev.idx + 1).last() == infos[prev.idx]);
            lemma_sum_manifest_prefix(mlayers, st.idx);
            lemma_sum_unpack_prefix(infos, st.idx);
        }
    }
}

pub proof fn lemma_sum_manifest_prefix_mono(layers: Seq<ImageManifestLayer>, a: int, b: int)
    requires
        0 <= a <= b <= layers.len(),
    ensures
        sum_manifest_sizes(layers.subrange(0, a)) <= sum_manifest_sizes(layers.subrange(0, b)),
    decreases b - a,
{
    if a < b {
        lemma_sum_manifest_prefix_mono(layers, a + 1, b);
        assert(layers.subrange(0, a + 1).drop_last() =~= layers.subrange(0, a));
    }
}

pub proof fn lemma_sum_unpack_prefix_mono(infos: Seq<LayerInfoV>, a: int, b: int)
    requires
        0 <= a <= b <= infos.len(),
    ensures
        sum_unpack_sizes(infos.subrange(0, a)) <= sum_unpack_sizes(infos.subrange(0, b)),
    decreases b - a,
{
    if a < b {
        lemma_sum_unpack_prefix_mono(infos, a + 1, b);
        assert(infos.subrange(0, a + 1).drop_last() =~= infos.subrange(0, a));
    }
}

} // verus!

verus! {

/// Assemble the analysis of an image from its config history, its
/// manifest layers, and the decoded layer contents, in history order.
/// The result follows `spec_diff` over the whole history: layer records,
/// one tree per history entry, the modification/removal summary, and the
/// aggregate wire and unpacked sizes.
pub fn analyze_layers(
    name: String,
    arch: String,
    os: String,
    history: &Vec<ImageHistory>,
    manifest_layers: &Vec<ImageManifestLayer>,
    info_list: &Vec<ImageLayerInfo>,
) -> (r: DockerAnalyzeResult)
    requires
        info_list@.len() == manifest_layers@.len(),
        sum_manifest_sizes(manifest_layers@) <= u64::MAX,
        sum_unpack_sizes(info_views(info_list@)) <= u64::MAX,
        forall|i: int|
            0 <= i < info_list@.len() ==> sum_file_sizes((#[trigger] info_list@[i])@.files)
                <= u64::MAX,
    ensures
        ({
            let st = spec_diff(
                history@,
                manifest_layers@,
                info_views(info_list@),
                history@.len() as int,
            );
            &&& r.name == name
            &&& r.arch == arch
            &&& r.os == os
            &&& layer_views(r.layers@) == st.layers
            &&& forests_of(r.file_tree_list@) == st.trees
            &&& summary_views(r.file_summary_list@) == st.sums
            &&& r.size == st.size
            &&& r.total_size == st.total
        }),
{
    let ghost hs = history@;
    let ghost mls = manifest_layers@;
    let ghost ivs = info_views(info_list@);
    let mut layers: Vec<ImageLayer> = Vec::new();
    let mut file_tree_list: Vec<Vec<FileTreeItem>> = Vec::new();
    let mut file_summary_list: Vec<ImageFileSummary> = Vec::new();
    let mut image_size: u64 = 0;
    let mut image_total_size: u64 = 0;
    let mut index: usize = 0;
    let mut i: usize = 0;
    proof {
        assert(layer_views(layers@) =~= spec_diff(hs, mls, ivs, 0).layers);
        assert(forests_of(file_tree_list@) =~= spec_diff(hs, mls, ivs, 0).trees);
        assert(summary_views(file_summary_list@) =~= spec_diff(hs, mls, ivs, 0).sums);
    }
    while i < history.len()
        invariant
            i <= history@.len(),
            index <= i,
            hs == history@,
            mls == manifest_layers@,
            ivs == info_views(info_list@),
            info_list@.len() == manifest_layers@.len(),
            sum_manifest_sizes(mls) <= u64::MAX,
            sum_unpack_sizes(ivs) <= u64::MAX,
            forall|t: int|
                0 <= t < info_list@.len() ==> sum_file_sizes((#[trigger] info_list@[t])@.files)
                    <= u64::MAX,
            ({
                let st = spec_diff(hs, mls, ivs, i as int);
                &&& layer_views(layers@) == st.layers
                &&& forests_of(file_tree_list@) == st.trees
                &&& summary_views(file_summary_list@) == st.sums
                &&& image_size == st.size
                &&& image_total_size == st.total
                &&& index == st.idx
            }),
        decreases history@.len() - i,
    {
        let ghost st = spec_diff(hs, mls, ivs, i as int);
        let ghost st2 = spec_diff(hs, mls, ivs, i + 1);
        proof {
            lemma_diff_partial_sums(hs, mls, ivs, i + 1);
        }
        let h = &history[i];
        let empty = match h.empty_layer {
            Some(b) => b,
            None => false,
        };
        let created_by = match &h.created_by {
            Some(v) => v.clone(),
            None => String::new(),
        };
        if empty {
            layers.push(
                ImageLayer {
                    created: h.created.clone(),
                    digest: String::new(),
                    cmd: created_by,
                    size: 0,
                    media_type: String::new(),
                    unpack_size: 0,
                    empty: true,
                },
            );
            file_tree_list.push(Vec::new());
            proof {
                assert(layers@.last()@ =~= spec_empty_layer(hs[i as int], true));
                assert(nodes_of(file_tree_list@.last()@) =~= Seq::<FileNode>::empty());
                assert(layer_views(layers@) =~= st2.layers);
                assert(forests_of(file_tree_list@) =~= st2.trees);
            }
        } else if index >= manifest_layers.len() {
            layers.push(
                ImageLayer {
                    created: h.created.clone(),
                    digest: String::new(),
                    cmd: created_by,
                    size: 0,
                    media_type: String::new(),
                    unpack_size: 0,
                    empty: false,
                },
            );
            file_tree_list.push(Vec::new());
            index = index + 1;
            proof {
                assert(layers@.last()@ =~= spec_empty_layer(hs[i as int], false));
                assert(nodes_of(file_tree_list@.last()@) =~= Seq::<FileNode>::empty());
                assert(layer_views(layers@) =~= st2.layers);
                assert(forests_of(file_tree_list@) =~= st2.trees);
            }
        } else {
            let ml = &manifest_layers[index];
            let info = &info_list[index];
            proof {
                assert(ivs[index as int] == info_list@[index as int]@);
            }
            if i != 0 {
                add_to_file_summary(&mut file_summary_list, i, &info.files, &file_tree_list);
            }
            proof {
                assert(file_views(info.files@) == ivs[index as int].files);
                assert(summary_views(file_summary_list@) == st2.sums);
            }
            let file_tree = convert_files_to_file_tree(&info.files, &file_summary_list);
            layers.push(
                ImageLayer {
                    created: h.created.clone(),
                    digest: ml.digest.clone(),
                    cmd: created_by,
                    size: ml.size,
                    media_type: ml.media_type.clone(),
                    unpack_size: info.unpack_size,
                    empty: false,
                },
            );
            file_tree_list.push(file_tree);
            image_size = image_size + ml.size;
            image_total_size = image_total_size + info.unpack_size;
            index = index + 1;
            proof {
                assert(layers@.last()@ =~= st2.layers.last());
                assert(layer_views(layers@) =~= st2.layers);
                assert(forests_of(file_tree_list@) =~= st2.trees);
            }
        }
        i = i + 1;
    }
    DockerAnalyzeResult {
        name,
        arch,
        os,
        layers,
        size: image_size,
        total_size: image_total_size,
        file_tree_list,
        file_summary_list,
    }
}

} // verus!

verus! {

/// Sum of the wire sizes of result layers.
pub open spec fn sum_layer_sizes(layers: Seq<LayerV>) -> int
    decreases layers.len(),
{
    if layers.len() == 0 {
        0
    } else {
        sum_layer_sizes(layers.drop_last()) + layers.last().size
    }
}

/// Sum of the unpacked sizes of result layers.
pub open spec fn sum_layer_unpack_sizes(layers: Seq<LayerV>) -> int
    decreases layers.len(),
{
    if layers.len() == 0 {
        0
    } else {
        sum_layer_unpack_sizes(layers.drop_last()) + layers.last().unpack_size
    }
}

/// The analysis has one layer record and one file tree per history entry,
/// and a history entry marked empty yields an empty layer record and an
/// empty tree.
pub proof fn lemma_analysis_layers_match_history(
    history: Seq<ImageHistory>,
    mlayers: Seq<ImageManifestLayer>,
    infos: Seq<LayerInfoV>,
    n: int,
)
    requires
        0 <= n <= history.len(),
    ensures
        ({
            let st = spec_diff(history, mlayers, infos, n);
            &&& st.layers.len() == n
            &&& st.trees.len() == n
            &&& forall|i: int|
                0 <= i < n ==> ((#[trigger] st.layers[i]).empty == hist_is_empty(history[i]))
            &&& forall|i: int|
                0 <= i < n && hist_is_empty(history[i]) ==> (#[trigger] st.trees[i]).len() == 0
        }),
    decreases n,
{
    if n > 0 {
        lemma_analysis_layers_match_history(history, mlayers, infos, n - 1);
    }
}

/// The aggregate sizes of the analysis are the sums over its layers: the
/// image size is the sum of the layer wire sizes and the total size is
/// the sum of the layer unpacked sizes.
pub proof fn lemma_analysis_sizes_are_sums(
    history: Seq<ImageHistory>,
    mlayers: Seq<ImageManifestLayer>,
    infos: Seq<LayerInfoV>,
    n: int,
)
    requires
        0 <= n,
    ensures
        ({
            let st = spec_diff(history, mlayers, infos, n);
            &&& st.size == sum_layer_sizes(st.layers)
            &&& st.total == sum_layer_unpack_sizes(st.layers)
        }),
    decreases n,
{
    let st = spec_diff(history, mlayers, infos, n);
    if n > 0 {
        lemma_analysis_sizes_are_sums(history, mlayers, infos, n - 1);
        let prev = spec_diff(history, mlayers, infos, n - 1);
        assert(st.layers.drop_last() =~= prev.layers);
    }
}

/// The diff state after `n` steps holds `n` layer records and `n` trees.
pub proof fn lemma_diff_lens(
    history: Seq<ImageHistory>,
    mlayers: Seq<ImageManifestLayer>,
    infos: Seq<LayerInfoV>,
    n: int,
)
    requires
        0 <= n,
    ensures
        spec_diff(history, mlayers, infos, n).layers.len() == n,
        spec_diff(history, mlayers, infos, n).trees.len() == n,
    decreases n,
{
    if n > 0 {
        lemma_diff_lens(history, mlayers, infos, n - 1);
    }
}

/// A removed entry's witness: the tree holds the entry's path and the
/// node found there carries the entry's size.
pub open spec fn removed_witness(tree: Seq<FileNode>, info: FileInfoV) -> bool {
    match find_in_tree(tree, spec_split(info.path, seq!['/'])) {
        Some(m) => m.size == info.size,
        None => false,
    }
}

/// Every entry a file listing produces carries the given layer index, is
/// a modification or a removal, and a removal's size comes from a tree
/// that holds its path.
pub proof fn lemma_file_summaries_entries(
    files: Seq<FileInfoV>,
    trees: Seq<Seq<FileNode>>,
    li: usize,
)
    ensures
        ({
            let es = spec_file_summaries(files, trees, li);
            forall|k: int|
                0 <= k < es.len() ==> {
                    let e = #[trigger] es[k];
                    &&& e.layer_index == li
                    &&& (e.op == Op::Removed || e.op == Op::Modified)
                    &&& (e.op == Op::Removed ==> exists|j: int|
                        0 <= j < trees.len() && removed_witness(#[trigger] trees[j], e.info))
                }
        }),
    decreases files.len(),
{
    let es = spec_file_summaries(files, trees, li);
    if files.len() > 0 {
        lemma_file_summaries_entries(files.drop_last(), trees, li);
        let f = files.last();
        match spec_summary_entry(f, trees, li) {
            Some(e) => {
                lemma_last_tree_match(trees, spec_split(f.path, seq!['/']));
                if f.is_whiteout is Some {
                    let jm = last_tree_match(trees, spec_split(f.path, seq!['/'])).unwrap();
                    assert(e.info.path == f.path);
                    assert(removed_witness(trees[jm.0], e.info));
                }
            },
            None => {},
        }
    }
}

/// Every summary entry of the analysis belongs to a layer after the base
/// (`layer_index > 0`), and every removed entry has a matching node, with
/// its size, in the tree of an earlier layer.
pub proof fn lemma_analysis_summaries(
    history: Seq<ImageHistory>,
    mlayers: Seq<ImageManifestLayer>,
    infos: Seq<LayerInfoV>,
    n: int,
)
    requires
        0 <= n <= usize::MAX,
    ensures
        ({
            let st = spec_diff(history, mlayers, infos, n);
            forall|k: int|
                0 <= k < st.sums.len() ==> {
                    let e = #[trigger] st.sums[k];
                    &&& 0 < e.layer_index < n
                    &&& (e.op == Op::Removed || e.op == Op::Modified)
                    &&& (e.op == Op::Removed ==> exists|j: int|
                        0 <= j < e.layer_index && removed_witness(#[trigger] st.trees[j], e.info))
                }
        }),
    decreases n,
{
    let st = spec_diff(history, mlayers, infos, n);
    if n > 0 {
        lemma_analysis_summaries(history, mlayers, infos, n - 1);
        let prev = spec_diff(history, mlayers, infos, n - 1);
        lemma_diff_lens(history, mlayers, infos, n - 1);
        let h = history[n - 1];
        if !hist_is_empty(h) && prev.idx < mlayers.len() && prev.idx < infos.len() && n - 1 != 0 {
            let added = spec_file_summaries(infos[prev.idx].files, prev.trees, (n - 1) as usize);
            lemma_file_summaries_entries(infos[prev.idx].files, prev.trees, (n - 1) as usize);
            assert forall|k: int| 0 <= k < st.sums.len() implies {
                let e = #[trigger] st.sums[k];
                &&& 0 < e.layer_index < n
                &&& (e.op == Op::Removed || e.op == Op::Modified)
                &&& (e.op == Op::Removed ==> exists|j: int|
                    0 <= j < e.layer_index && removed_witness(#[trigger] st.trees[j], e.info))
            } by {
                let e = st.sums[k];
                assert(st.sums == prev.sums + added);
                if k < prev.sums.len() {
                    assert(e == prev.sums[k]);
                    if e.op == Op::Removed {
                        let j = choose|j: int|
                            0 <= j < e.layer_index && removed_witness(
                                #[trigger] prev.trees[j],
                                e.info,
                            );
                        assert(st.trees[j] == prev.trees[j]);
                        assert(removed_witness(st.trees[j], e.info));
                    }
                } else {
                    assert(e == added[k - prev.sums.len()]);
                    assert(e.layer_index == (n - 1) as usize);
                    assert(0 < e.layer_index < n);
                    if e.op == Op::Removed {
                        let j = choose|j: int|
                            0 <= j < prev.trees.len() && removed_witness(
                                #[trigger] prev.trees[j],
                                e.info,
                            );
                        assert(st.trees[j] == prev.trees[j]);
                        assert(removed_witness(st.trees[j], e.info));
                    }
                }
            }
        } else {
            assert forall|k: int| 0 <= k < st.sums.len() implies {
                let e = #[trigger] st.sums[k];
                &&& 0 < e.layer_index < n
                &&& (e.op == Op::Removed || e.op == Op::Modified)
                &&& (e.op == Op::Removed ==> exists|j: int|
                    0 <= j < e.layer_index && removed_witness(#[trigger] st.trees[j], e.info))
            } by {
                let e = st.sums[k];
                assert(e == prev.sums[k]);
                if e.op == Op::Removed {
                    let j = choose|j: int|
                        0 <= j < e.layer_index && removed_witness(
                            #[trigger] prev.trees[j],
                            e.info,
                        );
                    assert(st.trees[j] == prev.trees[j]);
                    assert(removed_witness(st.trees[j], e.info));
                }
            }
        }
    }
}

} // verus!

verus! {

/// One row of the wasted-space report: a path, how many summary entries
/// named it, and the bytes they covered.
#[derive(Debug, PartialEq)]
pub struct ImageFileWastedSummary {
    pub path: String,
    pub total_size: u64,
    pub count: u32,
}

impl Clone for ImageFileWastedSummary {
    fn clone(&self) -> (r: Self)
        ensures
            r == *self,
    {
        ImageFileWastedSummary {
            path: self.path.clone(),
            total_size: self.total_size,
            count: self.count,
        }
    }
}

/// Mathematical model of a wasted-space row.
#[verifier::ext_equal]
pub ghost struct WastedV {
    pub path: Seq<char>,
    pub total_size: u64,
    pub count: u32,
}

impl View for ImageFileWastedSummary {
    type V = WastedV;

    open spec fn view(&self) -> WastedV {
        WastedV { path: self.path@, total_size: self.total_size, count: self.count }
    }
}

/// Models of a list of wasted-space rows.
pub open spec fn wasted_views(list: Seq<ImageFileWastedSummary>) -> Seq<WastedV> {
    list.map_values(|w: ImageFileWastedSummary| w@)
}

/// The efficiency summary of an analysis.
#[derive(Debug, PartialEq)]
pub struct DockerAnalyzeSummary {
    pub score: u64,
    pub wasted_size: u64,
    pub wasted_list: Vec<ImageFileWastedSummary>,
}

/// Total bytes named by the summary entries.
pub open spec fn spec_wasted_size(sums: Seq<SummaryV>) -> int
    decreases sums.len(),
{
    if sums.len() == 0 {
        0
    } else {
        spec_wasted_size(sums.drop_last()) + sums.last().info.size
    }
}

/// How many summary entries name `path`.
pub open spec fn count_path(sums: Seq<SummaryV>, path: Seq<char>) -> int
    decreases sums.len(),
{
    if sums.len() == 0 {
        0
    } else {
        count_path(sums.drop_last(), path) + if sums.last().info.path == path {
            1int
        } else {
            0int
        }
    }
}

/// Total bytes of the summary entries naming `path`.
pub open spec fn sum_path(sums: Seq<SummaryV>, path: Seq<char>) -> int
    decreases sums.len(),
{
    if sums.len() == 0 {
        0
    } else {
        sum_path(sums.drop_last(), path) + if sums.last().info.path == path {
            sums.last().info.size as int
        } else {
            0int
        }
    }
}

/// The efficiency score: the floor of one hundred times the unwasted
/// fraction, reduced by one more when any waste exists, clamped to
/// `[0, 100]`.
pub open spec fn spec_score(wasted: int, total: int) -> int {
    if wasted == 0 {
        100
    } else if wasted >= total {
        0
    } else {
        let base = 100 * (total - wasted) / total;
        if base == 0 {
            0
        } else {
            base - 1
        }
    }
}

/// Rows sorted by their total size, largest first.
pub open spec fn sorted_desc(rows: Seq<WastedV>) -> bool {
    forall|a: int, b: int|
        0 <= a < b < rows.len() ==> (#[trigger] rows[a]).total_size >= (#[trigger] rows[b]).total_size
}

pub proof fn lemma_wasted_nonneg(sums: Seq<SummaryV>)
    ensures
        0 <= spec_wasted_size(sums),
    decreases sums.len(),
{
    if sums.len() > 0 {
        lemma_wasted_nonneg(sums.drop_last());
    }
}

pub proof fn lemma_wasted_prefix(sums: Seq<SummaryV>, i: int)
    requires
        0 <= i <= sums.len(),
    ensures
        spec_wasted_size(sums.subrange(0, i)) <= spec_wasted_size(sums),
    decreases sums.len() - i,
{
    if i == sums.len() {
        assert(sums.subrange(0, i) =~= sums);
    } else {
        lemma_wasted_prefix(sums, i + 1);
        assert(sums.subrange(0, i + 1).drop_last() =~= sums.subrange(0, i));
        assert(sums.subrange(0, i + 1).last() == sums[i]);
    }
}

/// A path named by no entry counts zero.
pub proof fn lemma_count_path_zero(sums: Seq<SummaryV>, path: Seq<char>)
    requires
        forall|j: int| 0 <= j < sums.len() ==> (#[trigger] sums[j]).info.path != path,
    ensures
        count_path(sums, path) == 0,
    decreases sums.len(),
{
    if sums.len() > 0 {
        assert(sums.last() == sums[sums.len() - 1]);
        assert forall|j: int| 0 <= j < sums.len() - 1 implies (#[trigger] sums.drop_last()[j]).info.path
            != path by {
            assert(sums.drop_last()[j] == sums[j]);
        }
        lemma_count_path_zero(sums.drop_last(), path);
    }
}

/// A path named by no entry sums zero bytes.
pub proof fn lemma_sum_path_zero(sums: Seq<SummaryV>, path: Seq<char>)
    requires
        forall|j: int| 0 <= j < sums.len() ==> (#[trigger] sums[j]).info.path != path,
    ensures
        sum_path(sums, path) == 0,
    decreases sums.len(),
{
    if sums.len() > 0 {
        assert(sums.last() == sums[sums.len() - 1]);
        assert forall|j: int| 0 <= j < sums.len() - 1 implies (#[trigger] sums.drop_last()[j]).info.path
            != path by {
            assert(sums.drop_last()[j] == sums[j]);
        }
        lemma_sum_path_zero(sums.drop_last(), path);
    }
}

pub proof fn lemma_path_counts(sums: Seq<SummaryV>, path: Seq<char>)
    ensures
        0 <= count_path(sums, path) <= sums.len(),
        0 <= sum_path(sums, path) <= spec_wasted_size(sums),
    decreases sums.len(),
{
    if sums.len() > 0 {
        lemma_path_counts(sums.drop_last(), path);
    }
}

} // verus!

verus! {

fn sum_wasted(list: &Vec<ImageFileSummary>) -> (r: u64)
    requires
        spec_wasted_size(summary_views(list@)) <= u64::MAX,
    ensures
        r == spec_wasted_size(summary_views(list@)),
{
    let ghost sums = summary_views(list@);
    let mut acc: u64 = 0;
    let mut i: usize = 0;
    proof {
        assert(sums.subrange(0, 0) =~= Seq::<SummaryV>::empty());
    }
    while i < list.len()
        invariant
            i <= list@.len(),
            sums == summary_views(list@),
            spec_wasted_size(sums) <= u64::MAX,
            acc == spec_wasted_size(sums.subrange(0, i as int)),
        decreases list@.len() - i,
    {
        proof {
            assert(sums.subrange(0, i + 1).drop_last() =~= sums.subrange(0, i as int));
            assert(sums.subrange(0, i + 1).last() == sums[i as int]);
            assert(sums[i as int] == list@[i as int]@);
            lemma_wasted_prefix(sums, i + 1);
            lemma_wasted_nonneg(sums.subrange(0, i as int));
        }
        acc = acc + list[i].info.size;
        i = i + 1;
    }
    proof {
        assert(sums.subrange(0, list@.len() as int) =~= sums);
    }
    acc
}

fn group_wasted(list: &Vec<ImageFileSummary>) -> (r: Vec<ImageFileWastedSummary>)
    requires
        spec_wasted_size(summary_views(list@)) <= u64::MAX,
        list@.len() <= u32::MAX,
    ensures
        ({
            let sums = summary_views(list@);
            let wv = wasted_views(r@);
            &&& forall|a: int, b: int|
                0 <= a < b < wv.len() ==> (#[trigger] wv[a]).path != (#[trigger] wv[b]).path
            &&& forall|k: int|
                0 <= k < wv.len() ==> {
                    let w = #[trigger] wv[k];
                    &&& w.count == count_path(sums, w.path)
                    &&& w.total_size == sum_path(sums, w.path)
                    &&& w.count >= 1
                }
            &&& forall|j: int|
                0 <= j < sums.len() ==> exists|k: int|
                    0 <= k < wv.len() && (#[trigger] wv[k]).path == (#[trigger] sums[j]).info.path
        }),
{
    let ghost sums = summary_views(list@);
    let mut wl: Vec<ImageFileWastedSummary> = Vec::new();
    let mut i: usize = 0;
    while i < list.len()
        invariant
            i <= list@.len(),
            sums == summary_views(list@),
            spec_wasted_size(sums) <= u64::MAX,
            list@.len() <= u32::MAX,
            forall|a: int, b: int|
                0 <= a < b < wasted_views(wl@).len() ==> (#[trigger] wasted_views(wl@)[a]).path
                    != (#[trigger] wasted_views(wl@)[b]).path,
            forall|k: int|
                0 <= k < wasted_views(wl@).len() ==> {
                    let w = #[trigger] wasted_views(wl@)[k];
                    &&& w.count == count_path(sums.subrange(0, i as int), w.path)
                    &&& w.total_size == sum_path(sums.subrange(0, i as int), w.path)
                    &&& w.count >= 1
                },
            forall|j: int|
                0 <= j < i ==> exists|k: int|
                    0 <= k < wasted_views(wl@).len() && (#[trigger] wasted_views(wl@)[k]).path == (
                    #[trigger] sums[j]).info.path,
        decreases list@.len() - i,
    {
        let ghost prefix = sums.subrange(0, i as int);
        proof {
            assert(sums.subrange(0, i + 1).drop_last() =~= prefix);
            assert(sums.subrange(0, i + 1).last() == sums[i as int]);
            assert(sums[i as int] == list@[i as int]@);
            lemma_wasted_prefix(sums, i + 1);
            lemma_wasted_nonneg(prefix);
            lemma_path_counts(prefix, sums[i as int].info.path);
            lemma_path_counts(sums.subrange(0, i + 1), sums[i as int].info.path);
        }
        let entry = &list[i];
        let mut k: usize = 0;
        let mut found: bool = false;
        while k < wl.len() && !found
            invariant
                k <= wl@.len(),
                sums[i as int] == list@[i as int]@,
                i < list@.len(),
                sums == summary_views(list@),
                !found ==> forall|t: int|
                    0 <= t < k ==> (#[trigger] wl@[t])@.path != sums[i as int].info.path,
                found ==> k < wl@.len() && wl@[k as int]@.path == sums[i as int].info.path,
            decreases wl@.len() - k, (if found { 0int } else { 1int }),
        {
            if crate::strops::eq_str(wl[k].path.as_str(), list[i].info.path.as_str()) {
                proof {
                    assert(wl@[k as int]@.path == sums[i as int].info.path);
                }
                found = true;
            } else {
                proof {
                    assert(wl@[k as int]@.path != sums[i as int].info.path);
                }
                k = k + 1;
            }
        }
        proof {
            assert(sums.subrange(0, i + 1).drop_last() =~= prefix);
            assert(sums.subrange(0, i + 1).last() == sums[i as int]);
        }
        if found {
            proof {
                assert(wasted_views(wl@)[k as int] == wl@[k as int]@);
                assert(count_path(prefix, wl@[k as int]@.path) == wl@[k as int]@.count);
                lemma_path_counts(prefix, sums[i as int].info.path);
                lemma_path_counts(sums.subrange(0, i + 1), sums[i as int].info.path);
            }
            let new_count = wl[k].count + 1;
            let new_total = wl[k].total_size + entry.info.size;
            let ghost oldwl = wl@;
            wl[k].count = new_count;
            wl[k].total_size = new_total;
            proof {
                let wv = wasted_views(wl@);
                assert(wl@.len() == oldwl.len());
                assert forall|t: int| 0 <= t < wv.len() implies {
                    let w = #[trigger] wv[t];
                    &&& w.count == count_path(sums.subrange(0, i + 1), w.path)
                    &&& w.total_size == sum_path(sums.subrange(0, i + 1), w.path)
                    &&& w.count >= 1
                } by {
                    assert(wv[t] == wl@[t]@);
                    if t != k as int {
                        assert(wl@[t] == oldwl[t]);
                        assert(wasted_views(oldwl)[t] == oldwl[t]@);
                        assert(oldwl[t]@.path != oldwl[k as int]@.path);
                        assert(wv[t].path != sums[i as int].info.path);
                    } else {
                        assert(wv[t].path == sums[i as int].info.path);
                    }
                }
                assert forall|j: int| 0 <= j < i + 1 implies exists|t: int|
                    0 <= t < wasted_views(wl@).len() && (#[trigger] wasted_views(wl@)[t]).path == (
                #[trigger] sums[j]).info.path by {
                    if j == i {
                        assert(wasted_views(wl@)[k as int].path == sums[j].info.path);
                    } else {
                        let t = choose|t: int|
                            0 <= t < wasted_views(oldwl).len() && (#[trigger] wasted_views(
                                oldwl,
                            )[t]).path == sums[j].info.path;
                        assert(wasted_views(wl@)[t].path == wl@[t]@.path);
                        if t == k as int {
                            assert(wasted_views(wl@)[t].path == sums[j].info.path);
                        } else {
                            assert(wl@[t] == oldwl[t]);
                            assert(wasted_views(wl@)[t].path == sums[j].info.path);
                        }
                    }
                }
                assert forall|a: int, b: int|
                    0 <= a < b < wasted_views(wl@).len() implies (#[trigger] wasted_views(
                    wl@,
                )[a]).path != (#[trigger] wasted_views(wl@)[b]).path by {
                    assert(wasted_views(oldwl)[a] == oldwl[a]@);
                    assert(wasted_views(oldwl)[b] == oldwl[b]@);
                    assert(wasted_views(wl@)[a].path == oldwl[a]@.path);
                    assert(wasted_views(wl@)[b].path == oldwl[b]@.path);
                }
            }
        } else {
            proof {
                assert(k == wl@.len());
                lemma_path_counts(prefix, sums[i as int].info.path);
            }
            let ghost oldwl = wl@;
            wl.push(
                ImageFileWastedSummary {
                    path: entry.info.path.clone(),
                    count: 1,
                    total_size: entry.info.size,
                },
            );
            proof {
                let wv = wasted_views(wl@);
                assert(wv[wl@.len() - 1] == wl@.last()@);
                assert(wl@.last()@.path == sums[i as int].info.path);
                // the freshly pushed row counts exactly the new entry
                assert forall|t: int|
                    0 <= t < wasted_views(oldwl).len() implies (#[trigger] wasted_views(
                    oldwl,
                )[t]).path != sums[i as int].info.path by {
                    assert(wasted_views(oldwl)[t] == oldwl[t]@);
                }
                assert(count_path(prefix, sums[i as int].info.path) == 0) by {
                    lemma_count_path_zero(prefix, sums[i as int].info.path);
                    assert forall|j: int| 0 <= j < prefix.len() implies (#[trigger] prefix[j]).info.path
                        != sums[i as int].info.path by {
                        let t = choose|t: int|
                            0 <= t < wasted_views(oldwl).len() && (#[trigger] wasted_views(
                                oldwl,
                            )[t]).path == (prefix[j]).info.path;
                        assert(wasted_views(oldwl)[t].path != sums[i as int].info.path);
                    }
                }
                assert(sum_path(prefix, sums[i as int].info.path) == 0) by {
                    lemma_sum_path_zero(prefix, sums[i as int].info.path);
                    assert forall|j: int| 0 <= j < prefix.len() implies (#[trigger] prefix[j]).info.path
                        != sums[i as int].info.path by {
                        let t = choose|t: int|
                            0 <= t < wasted_views(oldwl).len() && (#[trigger] wasted_views(
                                oldwl,
                            )[t]).path == (prefix[j]).info.path;
                        assert(wasted_views(oldwl)[t].path != sums[i as int].info.path);
                    }
                }
                assert forall|t: int| 0 <= t < wv.len() implies {
                    let w = #[trigger] wv[t];
                    &&& w.count == count_path(sums.subrange(0, i + 1), w.path)
                    &&& w.total_size == sum_path(sums.subrange(0, i + 1), w.path)
                    &&& w.count >= 1
                } by {
                    assert(wv[t] == wl@[t]@);
                    if t < wv.len() - 1 {
                        assert(wl@[t] == oldwl[t]);
                        assert(wasted_views(oldwl)[t] == oldwl[t]@);
                        assert(wv[t].path != sums[i as int].info.path);
                    }
                }
                assert forall|j: int| 0 <= j < i + 1 implies exists|t: int|
                    0 <= t < wasted_views(wl@).len() && (#[trigger] wasted_views(wl@)[t]).path == (
                #[trigger] sums[j]).info.path by {
                    if j == i {
                        assert(wasted_views(wl@)[wl@.len() - 1].path == sums[j].info.path);
                    } else {
                        let t = choose|t: int|
                            0 <= t < wasted_views(oldwl).len() && (#[trigger] wasted_views(
                                oldwl,
                            )[t]).path == sums[j].info.path;
                        assert(wl@[t] == oldwl[t]);
                        assert(wasted_views(wl@)[t].path == sums[j].info.path);
                    }
                }
                assert forall|a: int, b: int|
                    0 <= a < b < wasted_views(wl@).len() implies (#[trigger] wasted_views(
                    wl@,
                )[a]).path != (#[trigger] wasted_views(wl@)[b]).path by {
                    assert(wasted_views(wl@)[a] == wl@[a]@);
                    assert(wasted_views(wl@)[b] == wl@[b]@);
                    if b < wasted_views(wl@).len() - 1 {
                        assert(wl@[a] == oldwl[a]);
                        assert(wl@[b] == oldwl[b]);
                        assert(wasted_views(oldwl)[a] == oldwl[a]@);
                        assert(wasted_views(oldwl)[b] == oldwl[b]@);
                    } else {
                        assert(wl@[a] == oldwl[a]);
                        assert(wasted_views(oldwl)[a] == oldwl[a]@);
                        assert(wasted_views(oldwl)[a].path != sums[i as int].info.path);
                    }
                }
            }
        }
        i = i + 1;
    }
    proof {
        assert(sums.subrange(0, list@.len() as int) =~= sums);
    }
    wl
}

} // verus!

verus! {

fn sort_wasted_desc(list: Vec<ImageFileWastedSummary>) -> (r: Vec<ImageFileWastedSummary>)
    ensures
        r@.to_multiset() == list@.to_multiset(),
        sorted_desc(wasted_views(r@)),
        r@.len() == list@.len(),
{
    broadcast use vstd::seq_lib::group_to_multiset_ensures;

    let mut rem = list;
    let mut out: Vec<ImageFileWastedSummary> = Vec::new();
    proof {
        assert(out@.to_multiset().add(rem@.to_multiset()) =~= rem@.to_multiset());
    }
    while rem.len() > 0
        invariant
            out@.to_multiset().add(rem@.to_multiset()) == list@.to_multiset(),
            out@.len() + rem@.len() == list@.len(),
            sorted_desc(wasted_views(out@)),
            forall|a: int, b: int|
                0 <= a < out@.len() && 0 <= b < rem@.len() ==> (#[trigger] out@[a]).total_size >= (
                #[trigger] rem@[b]).total_size,
        decreases rem@.len(),
    {
        let mut m: usize = 0;
        let mut j: usize = 1;
        while j < rem.len()
            invariant
                m < j <= rem@.len() || (j <= rem@.len() && m == 0),
                m < rem@.len(),
                rem@.len() > 0,
                forall|t: int| 0 <= t < j ==> rem@[m as int].total_size >= (#[trigger] rem@[t]).total_size,
            decreases rem@.len() - j,
        {
            if rem[j].total_size > rem[m].total_size {
                m = j;
            }
            j = j + 1;
        }
        let ghost oldrem = rem@;
        let ghost oldout = out@;
        let x = rem.remove(m);
        out.push(x);
        proof {
            broadcast use vstd::multiset::group_multiset_axioms;
            broadcast use vstd::seq_lib::group_to_multiset_ensures;

            assert(rem@ == oldrem.remove(m as int));
            vstd::seq_lib::to_multiset_remove::<ImageFileWastedSummary>(oldrem, m as int);
            assert(rem@.to_multiset() =~= oldrem.to_multiset().remove(x));
            assert(out@ == oldout.push(x));
            vstd::seq_lib::to_multiset_build::<ImageFileWastedSummary>(oldout, x);
            assert(out@.to_multiset() =~= oldout.to_multiset().insert(x));
            assert(oldrem.contains(x));
            assert(oldrem.to_multiset().count(x) > 0);
            assert(out@.to_multiset().add(rem@.to_multiset()) =~= oldout.to_multiset().add(
                oldrem.to_multiset(),
            ));
            assert forall|a: int, b: int|
                0 <= a < out@.len() && 0 <= b < rem@.len() implies (#[trigger] out@[a]).total_size
                >= (#[trigger] rem@[b]).total_size by {
                if b < m as int {
                    assert(rem@[b] == oldrem[b]);
                } else {
                    assert(rem@[b] == oldrem[b + 1]);
                }
                if a < oldout.len() {
                    assert(out@[a] == oldout[a]);
                } else {
                    assert(out@[a] == x);
                }
            }
            assert forall|a: int, b: int|
                0 <= a < b < wasted_views(out@).len() implies (#[trigger] wasted_views(
                out@,
            )[a]).total_size >= (#[trigger] wasted_views(out@)[b]).total_size by {
                assert(wasted_views(out@)[a] == out@[a]@);
                assert(wasted_views(out@)[b] == out@[b]@);
                if b < oldout.len() {
                    assert(wasted_views(oldout)[a] == oldout[a]@);
                    assert(wasted_views(oldout)[b] == oldout[b]@);
                } else {
                    assert(out@[b] == x);
                    assert(x == oldrem[m as int]);
                }
            }
        }
    }
    proof {
        assert(rem@.to_multiset() =~= Multiset::<ImageFileWastedSummary>::empty());
        assert(out@.to_multiset().add(rem@.to_multiset()) =~= out@.to_multiset());
    }
    out
}

/// The policy thresholds the CI gate checks a summary against.  The
/// wasted-percent bound is given in hundredths of a percent, so `2000`
/// stands for twenty percent.
#[derive(Debug, Clone, Copy, PartialEq, Eq, Structural)]
pub struct PolicyThresholds {
    pub lowest_efficiency_percent: u64,
    pub highest_wasted_bytes: u64,
    pub highest_wasted_percent_hundredths: u64,
}

/// The outcome of the policy gate, with each check named.
#[derive(Debug, Clone, Copy, PartialEq, Eq, Structural)]
pub struct PolicyReport {
    pub pass: bool,
    pub efficiency_ok: bool,
    pub wasted_bytes_ok: bool,
    pub wasted_percent_ok: bool,
}

impl DockerAnalyzeResult {
    /// Derive the efficiency summary: total wasted bytes, the score, and
    /// the per-path wasted rows sorted by size, largest first.
    pub fn summary(&self) -> (r: DockerAnalyzeSummary)
        requires
            spec_wasted_size(summary_views(self.file_summary_list@)) <= u64::MAX,
            self.file_summary_list@.len() <= u32::MAX,
        ensures
            ({
                let sums = summary_views(self.file_summary_list@);
                let wv = wasted_views(r.wasted_list@);
                &&& r.wasted_size == spec_wasted_size(sums)
                &&& r.score == spec_score(r.wasted_size as int, self.total_size as int)
                &&& 0 <= r.score <= 100
                &&& (r.wasted_size > 0 ==> r.score < 100)
                &&& sorted_desc(wv)
                &&& forall|a: int, b: int|
                    0 <= a < b < wv.len() ==> (#[trigger] wv[a]).path != (#[trigger] wv[b]).path
                &&& forall|k: int|
                    0 <= k < wv.len() ==> {
                        let w = #[trigger] wv[k];
                        &&& w.count == count_path(sums, w.path)
                        &&& w.total_size == sum_path(sums, w.path)
                        &&& w.count >= 1
                    }
                &&& forall|j: int|
                    0 <= j < sums.len() ==> exists|k: int|
                        0 <= k < wv.len() && (#[trigger] wv[k]).path == (
                        #[trigger] sums[j]).info.path
            }),
    {
        broadcast use vstd::seq_lib::group_to_multiset_ensures;

        let wasted_size = sum_wasted(&self.file_summary_list);
        let grouped = group_wasted(&self.file_summary_list);
        let ghost gv = grouped@;
        let wasted_list = sort_wasted_desc(grouped);
        let score = compute_score(wasted_size, self.total_size);
        proof {
            let sums = summary_views(self.file_summary_list@);
            assert forall|k: int| 0 <= k < wasted_views(wasted_list@).len() implies {
                let w = #[trigger] wasted_views(wasted_list@)[k];
                &&& w.count == count_path(sums, w.path)
                &&& w.total_size == sum_path(sums, w.path)
                &&& w.count >= 1
            } by {
                assert(wasted_list@.to_multiset().contains(wasted_list@[k]));
                assert(gv.to_multiset().contains(wasted_list@[k]));
                assert(gv.contains(wasted_list@[k]));
                let t = choose|t: int| 0 <= t < gv.len() && gv[t] == wasted_list@[k];
                assert(wasted_views(gv)[t] == gv[t]@);
                assert(wasted_views(wasted_list@)[k] == wasted_list@[k]@);
            }
            assert forall|a: int, b: int|
                0 <= a < b < wasted_views(wasted_list@).len() implies (#[trigger] wasted_views(
                wasted_list@,
            )[a]).path != (#[trigger] wasted_views(wasted_list@)[b]).path by {
                assert(wasted_list@.to_multiset().contains(wasted_list@[a]));
                assert(wasted_list@.to_multiset().contains(wasted_list@[b]));
                assert(gv.contains(wasted_list@[a]));
                assert(gv.contains(wasted_list@[b]));
                let ta = choose|t: int| 0 <= t < gv.len() && gv[t] == wasted_list@[a];
                let tb = choose|t: int| 0 <= t < gv.len() && gv[t] == wasted_list@[b];
                assert(wasted_views(gv)[ta] == gv[ta]@);
                assert(wasted_views(gv)[tb] == gv[tb]@);
                if ta == tb {
                    // two slots of the sorted list holding one grouped row
                    // would make the row count exceed its multiplicity
                    if wasted_list@[a] == wasted_list@[b] {
                        distinct_count_two(wasted_list@, a, b);
                        distinct_rows_unique(gv, wasted_list@[a]);
                    }
                    assert(wasted_list@[a]@.path != wasted_list@[b]@.path);
                } else {
                    assert(gv[ta]@.path != gv[tb]@.path);
                    assert(wasted_list@[a]@.path != wasted_list@[b]@.path);
                }
                assert(wasted_views(wasted_list@)[a] == wasted_list@[a]@);
                assert(wasted_views(wasted_list@)[b] == wasted_list@[b]@);
            }
            assert forall|j: int| 0 <= j < summary_views(self.file_summary_list@).len() implies
                exists|k: int|
                    0 <= k < wasted_views(wasted_list@).len() && (#[trigger] wasted_views(
                        wasted_list@,
                    )[k]).path == (#[trigger] summary_views(self.file_summary_list@)[j]).info.path
                by {
                let t = choose|t: int|
                    0 <= t < wasted_views(gv).len() && (#[trigger] wasted_views(gv)[t]).path
                        == summary_views(self.file_summary_list@)[j].info.path;
                assert(gv.contains(gv[t]));
                assert(gv.to_multiset().contains(gv[t]));
                assert(wasted_list@.to_multiset().contains(gv[t]));
                assert(wasted_list@.contains(gv[t]));
                let k = choose|k: int| 0 <= k < wasted_list@.len() && wasted_list@[k] == gv[t];
                assert(wasted_views(wasted_list@)[k] == wasted_list@[k]@);
                assert(wasted_views(gv)[t] == gv[t]@);
            }
        }
        DockerAnalyzeSummary { score, wasted_size, wasted_list }
    }

    /// Hold a summary against the CI thresholds and name each failing
    /// check.  The percent check compares `wasted / total` against the
    /// threshold by cross-multiplication, so no rounding intervenes.
    pub fn check_policy(&self, summary: &DockerAnalyzeSummary, t: &PolicyThresholds) -> (r:
        PolicyReport)
        ensures
            r.efficiency_ok == (summary.score >= t.lowest_efficiency_percent),
            r.wasted_bytes_ok == (summary.wasted_size <= t.highest_wasted_bytes),
            r.wasted_percent_ok == ((summary.wasted_size as int) * 10000 <= (
            t.highest_wasted_percent_hundredths as int) * (self.total_size as int)),
            r.pass == (r.efficiency_ok && r.wasted_bytes_ok && r.wasted_percent_ok),
    {
        let efficiency_ok = summary.score >= t.lowest_efficiency_percent;
        let wasted_bytes_ok = summary.wasted_size <= t.highest_wasted_bytes;
        let lhs: u128 = (summary.wasted_size as u128) * 10000;
        proof {
            assert((t.highest_wasted_percent_hundredths as u128) * (self.total_size as u128)
                <= u128::MAX) by (nonlinear_arith)
                requires
                    t.highest_wasted_percent_hundredths <= u64::MAX,
                    self.total_size <= u64::MAX,
            ;
        }
        let rhs: u128 = (t.highest_wasted_percent_hundredths as u128) * (self.total_size as u128);
        let wasted_percent_ok = lhs <= rhs;
        PolicyReport {
            pass: efficiency_ok && wasted_bytes_ok && wasted_percent_ok,
            efficiency_ok,
            wasted_bytes_ok,
            wasted_percent_ok,
        }
    }
}

/// One value at two slots means its count in the sequence is at least two.
proof fn distinct_count_two(s: Seq<ImageFileWastedSummary>, a: int, b: int)
    requires
        0 <= a < b < s.len(),
        s[a] == s[b],
    ensures
        s.to_multiset().count(s[a]) >= 2,
{
    broadcast use vstd::seq_lib::group_to_multiset_ensures;

    let s1 = s.remove(b);
    assert(s1.to_multiset() == s.to_multiset().remove(s[b]));
    assert(s1[a] == s[a]);
    assert(s1.contains(s1[a]));
    assert(s1.to_multiset().count(s[a]) > 0);
}

/// Grouped rows are pairwise distinct values, so each occurs once.
proof fn distinct_rows_unique(gv: Seq<ImageFileWastedSummary>, x: ImageFileWastedSummary)
    requires
        forall|a: int, b: int|
            0 <= a < b < wasted_views(gv).len() ==> (#[trigger] wasted_views(gv)[a]).path != (
            #[trigger] wasted_views(gv)[b]).path,
        gv.contains(x),
    ensures
        gv.to_multiset().count(x) <= 1,
{
    broadcast use vstd::seq_lib::group_to_multiset_ensures;

    if gv.to_multiset().count(x) >= 2 {
        let a = choose|a: int| 0 <= a < gv.len() && gv[a] == x;
        let s1 = gv.remove(a);
        assert(s1.to_multiset() == gv.to_multiset().remove(x));
        assert(s1.to_multiset().count(x) >= 1);
        assert(s1.contains(x));
        let b1 = choose|b: int| 0 <= b < s1.len() && s1[b] == x;
        let b = if b1 < a {
            b1
        } else {
            b1 + 1
        };
        assert(gv[b] == x);
        assert(a != b);
        let lo = if a < b {
            a
        } else {
            b
        };
        let hi = if a < b {
            b
        } else {
            a
        };
        assert(wasted_views(gv)[lo] == gv[lo]@);
        assert(wasted_views(gv)[hi] == gv[hi]@);
        assert(false);
    }
}

fn compute_score(wasted: u64, total: u64) -> (r: u64)
    ensures
        r == spec_score(wasted as int, total as int),
        0 <= r <= 100,
        wasted > 0 ==> r < 100,
{
    if wasted == 0 {
        return 100;
    }
    if wasted >= total {
        return 0;
    }
    let base128: u128 = (100 as u128) * ((total - wasted) as u128) / (total as u128);
    proof {
        let t = total as int;
        let w = wasted as int;
        assert(0 <= 100 * (t - w) / t < 100) by (nonlinear_arith)
            requires
                0 < w < t,
        ;
    }
    let base: u64 = base128 as u64;
    if base == 0 {
        0
    } else {
        base - 1
    }
}

} // verus!
