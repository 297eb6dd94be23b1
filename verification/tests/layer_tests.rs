use diving::layer::{
    effective_path, get_file_content_from_layer, get_file_content_from_tar,
    get_file_size_from_tar, get_files_from_layer, Error,
};

fn tar_bytes(entries: &[(&str, &[u8])]) -> Vec<u8> {
    let mut b = tar::Builder::new(Vec::new());
    for (path, content) in entries {
        let mut h = tar::Header::new_gnu();
        h.set_size(content.len() as u64);
        h.set_mode(0o644);
        h.set_uid(0);
        h.set_gid(0);
        h.set_cksum();
        b.append_data(&mut h, path, *content).unwrap();
    }
    b.into_inner().unwrap()
}

fn gzip_bytes(data: &[u8]) -> Vec<u8> {
    let mut enc = libflate::gzip::Encoder::new(Vec::new()).unwrap();
    std::io::Write::write_all(&mut enc, data).unwrap();
    enc.finish().into_result().unwrap()
}

#[test]
fn decode_plain_tar_layer() {
    let data = tar_bytes(&[("bin/hello", b"hello world")]);
    let info = get_files_from_layer(&data, "application/vnd.oci.image.layer.v1.tar").unwrap();
    assert_eq!(info.size, data.len() as u64);
    assert_eq!(info.unpack_size, data.len() as u64);
    assert_eq!(info.files.len(), 1);
    assert_eq!(info.files[0].path, "bin/hello");
    assert_eq!(info.files[0].size, 11);
    assert_eq!(info.files[0].mode, "?rw-r--r--");
    assert_eq!(info.files[0].is_whiteout, None);
}

#[test]
fn decode_gzip_layer_round_trips_file_set() {
    let plain = tar_bytes(&[("bin/hello", b"hello world"), ("etc/conf", b"x=1")]);
    let gz = gzip_bytes(&plain);
    let a = get_files_from_layer(&gz, "application/vnd.oci.image.layer.v1.tar+gzip").unwrap();
    let b = get_files_from_layer(&plain, "application/vnd.oci.image.layer.v1.tar").unwrap();
    assert_eq!(a.files, b.files);
    assert_eq!(a.unpack_size, plain.len() as u64);
    assert_eq!(a.size, gz.len() as u64);
}

#[test]
fn decode_zstd_layer_round_trips_file_set() {
    let plain = tar_bytes(&[("bin/hello", b"hello world")]);
    let zs = zstd::stream::encode_all(plain.as_slice(), 0).unwrap();
    let a = get_files_from_layer(&zs, "application/vnd.oci.image.layer.v1.tar+zstd").unwrap();
    let b = get_files_from_layer(&plain, "application/vnd.oci.image.layer.v1.tar").unwrap();
    assert_eq!(a.files, b.files);
    assert_eq!(a.unpack_size, plain.len() as u64);
}

#[test]
fn corrupt_gzip_reports_gzip_decode() {
    let data = vec![1u8, 2, 3, 4];
    let e = get_files_from_layer(&data, "tar+gzip").unwrap_err();
    assert_eq!(e, Error::GzipDecode);
}

#[test]
fn corrupt_zstd_reports_zstd_decode() {
    let data = vec![1u8, 2, 3, 4];
    let e = get_files_from_layer(&data, "tar+zstd").unwrap_err();
    assert_eq!(e, Error::ZstdDecode);
}

#[test]
fn whiteout_prefix_is_stripped_once() {
    let data = tar_bytes(&[("var/log/.wh.app.log", b"")]);
    let info = get_files_from_layer(&data, "tar").unwrap();
    assert_eq!(info.files.len(), 1);
    assert_eq!(info.files[0].path, "var/log/app.log");
    assert_eq!(info.files[0].is_whiteout, Some(true));
}

#[test]
fn double_whiteout_prefix_is_stripped_once_only() {
    let data = tar_bytes(&[("var/.wh..wh..foo", b"")]);
    let info = get_files_from_layer(&data, "tar").unwrap();
    assert_eq!(info.files.len(), 1);
    // stripped once, treated literally beyond that
    assert_eq!(info.files[0].path, "var/.wh..foo");
    assert_eq!(info.files[0].is_whiteout, Some(true));
}

#[test]
fn trailing_slash_entry_is_skipped_as_directory() {
    let data = tar_bytes(&[("docs/", b""), ("docs/readme", b"hi")]);
    let info = get_files_from_layer(&data, "tar").unwrap();
    assert_eq!(info.files.len(), 1);
    assert_eq!(info.files[0].path, "docs/readme");
}

#[test]
fn read_single_file_from_tar() {
    let data = tar_bytes(&[("inventory.json", b"[{}]"), ("other", b"zz")]);
    let content = get_file_content_from_tar(&data, "inventory.json").unwrap();
    assert_eq!(content, b"[{}]");
    assert_eq!(get_file_content_from_tar(&data, "missing").unwrap_err(), Error::NotFound);
    assert_eq!(get_file_size_from_tar(&data, "other").unwrap(), 2);
    assert_eq!(get_file_size_from_tar(&data, "missing").unwrap(), 0);
}

#[test]
fn read_single_file_from_compressed_layer() {
    let plain = tar_bytes(&[("etc/passwd", b"root:x:0")]);
    let gz = gzip_bytes(&plain);
    let content = get_file_content_from_layer(&gz, "tar+gzip", "etc/passwd").unwrap();
    assert_eq!(content, b"root:x:0");
    let e = get_file_content_from_layer(&gz, "tar+gzip", "nope").unwrap_err();
    assert_eq!(e, Error::NotFound);
}

#[test]
fn layer_error_maps_to_category() {
    let e = Error::GzipDecode.to_http_error();
    assert_eq!(e.category, "layer");
    assert_eq!(e.message, "Gzip decode fail");
    assert_eq!(e.status, 400);
}

#[test]
fn malformed_archive_reports_tar() {
    let data = vec![0xffu8; 600];
    let e = get_files_from_layer(&data, "application/vnd.oci.image.layer.v1.tar").unwrap_err();
    assert_eq!(e, Error::Tar);
    assert_eq!(get_file_content_from_tar(&data, "x").unwrap_err(), Error::Tar);
}

#[test]
fn leading_slashes_are_stripped() {
    let (p, wh) = effective_path("/etc/hosts");
    assert_eq!(p, "etc/hosts");
    assert!(!wh);
    let (p2, wh2) = effective_path("//var/log/.wh.app.log");
    assert_eq!(p2, "var/log/app.log");
    assert!(wh2);
    let (p3, wh3) = effective_path("plain");
    assert_eq!(p3, "plain");
    assert!(!wh3);
}

#[test]
fn blob_error_maps_to_category() {
    let e = diving::store::Error::Read.to_http_error();
    assert_eq!(e.category, "blob");
    assert_eq!(e.message, "Read file fail");
}
