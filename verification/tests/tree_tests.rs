use diving::oci_image::{
    convert_files_to_file_tree, find_file_tree_item, FileTreeItem, ImageFileInfo,
    ImageFileSummary, ImageIndex, ImageIndexManifest, ImageIndexPlatform, Op,
};

fn file(path: &str, size: u64) -> ImageFileInfo {
    ImageFileInfo {
        path: path.to_string(),
        link: "".to_string(),
        size,
        mode: "-rw-r--r--".to_string(),
        uid: 0,
        gid: 0,
        is_whiteout: None,
    }
}

fn names(items: &[FileTreeItem]) -> Vec<String> {
    items.iter().map(|i| i.name.clone()).collect()
}

#[test]
fn tree_builds_directories_with_size_rollup() {
    let files = vec![file("etc/hosts", 10), file("etc/group", 5), file("readme", 1)];
    let tree = convert_files_to_file_tree(&files, &Vec::new());
    assert_eq!(names(&tree), vec!["etc".to_string(), "readme".to_string()]);
    assert_eq!(tree[0].size, 15);
    assert_eq!(tree[0].children.len(), 2);
    assert_eq!(tree[0].children[0].name, "hosts");
    assert_eq!(tree[0].children[0].size, 10);
    assert_eq!(tree[1].size, 1);
    assert!(tree[1].children.is_empty());
}

#[test]
fn tree_root_names_are_top_level_components() {
    let files = vec![
        file("a/x", 1),
        file("a/y/z", 2),
        file("b", 3),
    ];
    let tree = convert_files_to_file_tree(&files, &Vec::new());
    assert_eq!(names(&tree), vec!["a".to_string(), "b".to_string()]);
    // every directory's size is the sum of the file sizes beneath it
    assert_eq!(tree[0].size, 3);
    let y = tree[0].children.iter().find(|c| c.name == "y").unwrap();
    assert_eq!(y.size, 2);
}

#[test]
fn find_walks_the_tree() {
    let files = vec![file("var/log/app.log", 1000)];
    let tree = convert_files_to_file_tree(&files, &Vec::new());
    let found = find_file_tree_item(&tree, vec!["var", "log", "app.log"]).unwrap();
    assert_eq!(found.size, 1000);
    assert_eq!(found.name, "app.log");
    assert!(find_file_tree_item(&tree, vec!["var", "missing"]).is_none());
    assert!(find_file_tree_item(&tree, Vec::new()).is_none());
}

#[test]
fn whiteout_leaf_is_marked_removed() {
    let mut wh = file("var/log/app.log", 0);
    wh.is_whiteout = Some(true);
    let tree = convert_files_to_file_tree(&vec![wh], &Vec::new());
    let found = find_file_tree_item(&tree, vec!["var", "log", "app.log"]).unwrap();
    assert_eq!(found.op, Op::Removed);
}

#[test]
fn summarized_file_is_marked_modified() {
    let f = file("etc/hosts", 120);
    let summary = ImageFileSummary { layer_index: 1, op: Op::Modified, info: file("etc/hosts", 120) };
    let tree = convert_files_to_file_tree(&vec![f], &vec![summary]);
    let found = find_file_tree_item(&tree, vec!["etc", "hosts"]).unwrap();
    assert_eq!(found.op, Op::Modified);
    // the containing directory inherits the modified mark
    assert_eq!(tree[0].op, Op::Modified);
}

fn index_entry(os: &str, arch: &str, digest: &str) -> ImageIndexManifest {
    ImageIndexManifest {
        media_type: "application/vnd.docker.distribution.manifest.v2+json".to_string(),
        digest: digest.to_string(),
        size: 1,
        platform: ImageIndexPlatform {
            architecture: arch.to_string(),
            os: os.to_string(),
            variant: None,
        },
        annotations: None,
    }
}

#[test]
fn guess_manifest_picks_matching_arch() {
    let index = ImageIndex {
        media_type: "application/vnd.oci.image.index.v1+json".to_string(),
        schema_version: 2,
        manifests: vec![
            index_entry("linux", "amd64", "sha256:amd"),
            index_entry("linux", "arm64", "sha256:arm"),
        ],
    };
    assert_eq!(index.guess_manifest("arm64", "x86_64").unwrap().digest, "sha256:arm");
    assert_eq!(index.guess_manifest("", "x86_64").unwrap().digest, "sha256:amd");
    assert_eq!(index.guess_manifest("", "aarch64").unwrap().digest, "sha256:arm");
}

#[test]
fn guess_manifest_falls_back_to_first_linux_then_first() {
    let index = ImageIndex {
        media_type: "application/vnd.oci.image.index.v1+json".to_string(),
        schema_version: 2,
        manifests: vec![
            index_entry("windows", "amd64", "sha256:win"),
            index_entry("linux", "s390x", "sha256:linux"),
        ],
    };
    assert_eq!(index.guess_manifest("amd64", "x86_64").unwrap().digest, "sha256:linux");
    let only_windows = ImageIndex {
        media_type: "application/vnd.oci.image.index.v1+json".to_string(),
        schema_version: 2,
        manifests: vec![index_entry("windows", "amd64", "sha256:win")],
    };
    assert_eq!(only_windows.guess_manifest("amd64", "x86_64").unwrap().digest, "sha256:win");
}

#[test]
fn guess_manifest_on_empty_index_is_an_error() {
    let index = ImageIndex {
        media_type: "application/vnd.oci.image.index.v1+json".to_string(),
        schema_version: 2,
        manifests: Vec::new(),
    };
    let e = index.guess_manifest("amd64", "x86_64").unwrap_err();
    assert_eq!(e.category, "docker");
}
