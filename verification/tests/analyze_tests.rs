use diving::analyze::{analyze_layers, DockerAnalyzeResult};
use diving::layer::ImageLayerInfo;
use diving::oci_image::{ImageFileInfo, ImageHistory, ImageManifestLayer, Op};

fn file(path: &str, size: u64) -> ImageFileInfo {
    ImageFileInfo {
        path: path.to_string(),
        link: "".to_string(),
        size,
        mode: "-rw-r--r--".to_string(),
        uid: 0,
        gid: 0,
        is_whiteout: None,
    }
}

fn hist(empty: bool) -> ImageHistory {
    ImageHistory {
        created: "2023-01-01T00:00:00Z".to_string(),
        created_by: Some("RUN something".to_string()),
        empty_layer: if empty { Some(true) } else { None },
        comment: None,
    }
}

fn mlayer(digest: &str, size: u64) -> ImageManifestLayer {
    ImageManifestLayer {
        media_type: "application/vnd.oci.image.layer.v1.tar".to_string(),
        digest: digest.to_string(),
        size,
    }
}

fn info(files: Vec<ImageFileInfo>, size: u64, unpack: u64) -> ImageLayerInfo {
    ImageLayerInfo { size, unpack_size: unpack, files }
}

fn analyze(
    history: Vec<ImageHistory>,
    mlayers: Vec<ImageManifestLayer>,
    infos: Vec<ImageLayerInfo>,
) -> DockerAnalyzeResult {
    analyze_layers(
        "library/demo:latest".to_string(),
        "amd64".to_string(),
        "linux".to_string(),
        &history,
        &mlayers,
        &infos,
    )
}

#[test]
fn single_empty_history_entry_yields_one_empty_tree() {
    let r = analyze(vec![hist(true)], Vec::new(), Vec::new());
    assert_eq!(r.layers.len(), 1);
    assert!(r.layers[0].empty);
    assert_eq!(r.layers[0].size, 0);
    assert_eq!(r.file_tree_list.len(), 1);
    assert!(r.file_tree_list[0].is_empty());
    assert!(r.file_summary_list.is_empty());
    assert_eq!(r.size, 0);
    assert_eq!(r.total_size, 0);
}

#[test]
fn layers_align_with_history_and_sizes_sum() {
    let history = vec![hist(false), hist(true), hist(false)];
    let mlayers = vec![mlayer("sha256:a", 100), mlayer("sha256:b", 50)];
    let infos = vec![
        info(vec![file("bin/app", 70)], 100, 120),
        info(vec![file("etc/conf", 30)], 50, 60),
    ];
    let r = analyze(history, mlayers, infos);
    assert_eq!(r.layers.len(), 3);
    assert!(!r.layers[0].empty);
    assert!(r.layers[1].empty);
    assert!(!r.layers[2].empty);
    assert_eq!(r.layers[0].digest, "sha256:a");
    assert_eq!(r.layers[2].digest, "sha256:b");
    // the image size is the sum of the layer sizes, the total the sum of
    // the unpacked sizes
    assert_eq!(r.size, 150);
    assert_eq!(r.size, r.layers.iter().map(|l| l.size).sum::<u64>());
    assert_eq!(r.total_size, 180);
    assert_eq!(r.total_size, r.layers.iter().map(|l| l.unpack_size).sum::<u64>());
}

#[test]
fn two_layer_modify_summary_and_score() {
    let history = vec![hist(false), hist(false)];
    let mlayers = vec![mlayer("sha256:a", 100), mlayer("sha256:b", 120)];
    let infos = vec![
        info(vec![file("etc/hosts", 100)], 100, 100),
        info(vec![file("etc/hosts", 120)], 120, 120),
    ];
    let r = analyze(history, mlayers, infos);
    assert_eq!(r.file_summary_list.len(), 1);
    let e = &r.file_summary_list[0];
    assert_eq!(e.layer_index, 1);
    assert_eq!(e.op, Op::Modified);
    assert_eq!(e.info.size, 120);
    let s = r.summary();
    assert_eq!(s.wasted_size, 120);
    assert_eq!(s.wasted_list.len(), 1);
    assert_eq!(s.wasted_list[0].path, "etc/hosts");
    assert_eq!(s.wasted_list[0].count, 1);
    assert_eq!(s.wasted_list[0].total_size, 120);
    // total 220, wasted 120: floor(100 * 100 / 220) = 45, minus one for waste
    assert_eq!(s.score, 44);
}

#[test]
fn three_layer_whiteout_takes_size_from_latest_match() {
    let history = vec![hist(false), hist(false), hist(false)];
    let mlayers = vec![
        mlayer("sha256:a", 1000),
        mlayer("sha256:b", 1500),
        mlayer("sha256:c", 10),
    ];
    let mut wh = file("var/log/app.log", 0);
    wh.is_whiteout = Some(true);
    let infos = vec![
        info(vec![file("var/log/app.log", 1000)], 1000, 1000),
        info(vec![file("var/log/app.log", 1500)], 1500, 1500),
        info(vec![wh], 10, 10),
    ];
    let r = analyze(history, mlayers, infos);
    assert_eq!(r.file_summary_list.len(), 2);
    assert_eq!(r.file_summary_list[0].layer_index, 1);
    assert_eq!(r.file_summary_list[0].op, Op::Modified);
    assert_eq!(r.file_summary_list[0].info.size, 1500);
    assert_eq!(r.file_summary_list[1].layer_index, 2);
    assert_eq!(r.file_summary_list[1].op, Op::Removed);
    // the removed entry takes its size from the match in layer 1's tree
    assert_eq!(r.file_summary_list[1].info.size, 1500);
    // the last tree shows the file as removed
    let found =
        diving::oci_image::find_file_tree_item(&r.file_tree_list[2], vec!["var", "log", "app.log"])
            .unwrap();
    assert_eq!(found.op, Op::Removed);
    // every summary entry names a layer after the base
    assert!(r.file_summary_list.iter().all(|e| e.layer_index > 0));
}

#[test]
fn score_is_clamped_and_penalized() {
    let empty = analyze(Vec::new(), Vec::new(), Vec::new());
    let s = empty.summary();
    assert_eq!(s.score, 100);
    assert_eq!(s.wasted_size, 0);
    assert!(s.wasted_list.is_empty());
}

#[test]
fn wasted_list_groups_and_sorts_by_size() {
    let history = vec![hist(false), hist(false), hist(false)];
    let mlayers = vec![mlayer("sha256:a", 10), mlayer("sha256:b", 10), mlayer("sha256:c", 10)];
    let infos = vec![
        info(vec![file("big", 500), file("small", 50)], 10, 600),
        info(vec![file("big", 500), file("small", 50)], 10, 600),
        info(vec![file("small", 50)], 10, 60),
    ];
    let r = analyze(history, mlayers, infos);
    let s = r.summary();
    assert_eq!(s.wasted_list.len(), 2);
    assert_eq!(s.wasted_list[0].path, "big");
    assert_eq!(s.wasted_list[0].count, 1);
    assert_eq!(s.wasted_list[0].total_size, 500);
    assert_eq!(s.wasted_list[1].path, "small");
    assert_eq!(s.wasted_list[1].count, 2);
    assert_eq!(s.wasted_list[1].total_size, 100);
    assert_eq!(s.wasted_size, 600);
}

#[test]
fn policy_gate_names_failing_checks() {
    let history = vec![hist(false), hist(false)];
    let mlayers = vec![mlayer("sha256:a", 100), mlayer("sha256:b", 120)];
    let infos = vec![
        info(vec![file("etc/hosts", 100)], 100, 100),
        info(vec![file("etc/hosts", 120)], 120, 120),
    ];
    let r = analyze(history, mlayers, infos);
    let s = r.summary();
    let strict = diving::analyze::PolicyThresholds {
        lowest_efficiency_percent: 95,
        highest_wasted_bytes: 100,
        highest_wasted_percent_hundredths: 1000,
    };
    let report = r.check_policy(&s, &strict);
    assert!(!report.pass);
    assert!(!report.efficiency_ok);
    assert!(!report.wasted_bytes_ok);
    // 120 / 220 = 54.5% > 10%
    assert!(!report.wasted_percent_ok);
    let lenient = diving::analyze::PolicyThresholds {
        lowest_efficiency_percent: 10,
        highest_wasted_bytes: 1 << 30,
        highest_wasted_percent_hundredths: 9000,
    };
    let report2 = r.check_policy(&s, &lenient);
    assert!(report2.pass);
}
