//! The local single-file flow, in memory: a `docker save` style archive
//! whose manifest names one config blob and one layer.

use diving::analyze::analyze_layers;
use diving::docker::LocalManifest;
use diving::layer::{get_file_content_from_tar, get_file_size_from_tar, get_files_from_layer};
use diving::oci_image::ImageHistory;

fn tar_bytes(entries: &[(&str, &[u8])]) -> Vec<u8> {
    let mut b = tar::Builder::new(Vec::new());
    for (path, content) in entries {
        let mut h = tar::Header::new_gnu();
        h.set_size(content.len() as u64);
        h.set_mode(0o755);
        h.set_uid(0);
        h.set_gid(0);
        h.set_cksum();
        b.append_data(&mut h, path, *content).unwrap();
    }
    b.into_inner().unwrap()
}

#[test]
fn local_single_file_image_analyzes_cleanly() {
    let hello = vec![0u8; 1024];
    let layer_tar = tar_bytes(&[("bin/hello", hello.as_slice())]);
    let archive = tar_bytes(&[
        ("abc.json", b"{}"),
        ("layer1/layer.tar", layer_tar.as_slice()),
    ]);

    let local = LocalManifest {
        config: "abc.json".to_string(),
        repo_tags: vec!["hello:latest".to_string()],
        layers: vec!["layer1/layer.tar".to_string()],
    };
    let mut manifest = local.to_image_manifest();
    assert_eq!(manifest.schema_version, 2);
    assert_eq!(manifest.layers.len(), 1);
    // the local flow fills layer sizes from header probes
    for layer in manifest.layers.iter_mut() {
        layer.size = get_file_size_from_tar(&archive, &layer.digest).unwrap();
    }
    assert_eq!(manifest.layers[0].size, layer_tar.len() as u64);

    let blob = get_file_content_from_tar(&archive, &manifest.layers[0].digest).unwrap();
    let info = get_files_from_layer(&blob, &manifest.layers[0].media_type).unwrap();
    assert_eq!(info.files.len(), 1);
    assert_eq!(info.files[0].path, "bin/hello");
    assert_eq!(info.files[0].size, 1024);
    assert_eq!(info.files[0].mode, "?rwxr-xr-x");

    let history = vec![ImageHistory {
        created: "2023-01-01T00:00:00Z".to_string(),
        created_by: Some("ADD hello".to_string()),
        empty_layer: None,
        comment: None,
    }];
    let r = analyze_layers(
        "hello.tar".to_string(),
        "amd64".to_string(),
        "linux".to_string(),
        &history,
        &manifest.layers,
        &vec![info],
    );
    assert_eq!(r.layers.len(), 1);
    assert!(r.file_summary_list.is_empty());
    // a single uncompressed layer: wire and unpacked sizes agree
    assert_eq!(r.size, layer_tar.len() as u64);
    assert_eq!(r.total_size, r.size);
    let s = r.summary();
    assert_eq!(s.score, 100);
    assert_eq!(s.wasted_size, 0);
}
