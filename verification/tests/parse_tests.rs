use diving::docker::{analysis_name, format_image_ref, manifest_cache_key, parse_auth_info, parse_image_info, token_url, DockerClient, DockerImageParams, DockerTokenInfo, ImageInfo};

#[test]
fn parse_bare_name() {
    let r = parse_image_info("redis");
    assert_eq!(r.registry, "https://index.docker.io/v2");
    assert_eq!(r.user, "library");
    assert_eq!(r.name, "redis");
    assert_eq!(r.tag, "latest");
    assert_eq!(r.arch, "");
}

#[test]
fn parse_user_name_tag() {
    let r = parse_image_info("vicanso/diving:1.2.3");
    assert_eq!(r.registry, "https://index.docker.io/v2");
    assert_eq!(r.user, "vicanso");
    assert_eq!(r.name, "diving");
    assert_eq!(r.tag, "1.2.3");
}

#[test]
fn parse_host_user_name() {
    let r = parse_image_info("quay.io/prometheus/node-exporter:v1.5.0");
    assert_eq!(r.registry, "https://quay.io/v2");
    assert_eq!(r.user, "prometheus");
    assert_eq!(r.name, "node-exporter");
    assert_eq!(r.tag, "v1.5.0");
}

#[test]
fn parse_arch_query() {
    let r = parse_image_info("redis?arch=arm64");
    assert_eq!(r.name, "redis");
    assert_eq!(r.tag, "latest");
    assert_eq!(r.arch, "arm64");
}

#[test]
fn parse_arch_query_last_wins() {
    let r = parse_image_info("redis?arch=amd64&arch=arm64");
    assert_eq!(r.arch, "arm64");
}

#[test]
fn parse_file_reference() {
    let r = parse_image_info("file://fixtures/hello.tar");
    assert_eq!(r.registry, "local-file");
    assert_eq!(r.name, "fixtures/hello.tar");
    assert_eq!(r.user, "");
    assert_eq!(r.tag, "");
}

#[test]
fn parse_too_many_components() {
    let r = parse_image_info("a/b/c/d");
    assert_eq!(r.user, "");
    assert_eq!(r.name, "");
}

#[test]
fn format_then_parse_round_trip() {
    let cases = [
        ImageInfo {
            registry: "https://index.docker.io/v2".to_string(),
            user: "library".to_string(),
            name: "redis".to_string(),
            tag: "latest".to_string(),
            arch: "".to_string(),
        },
        ImageInfo {
            registry: "https://index.docker.io/v2".to_string(),
            user: "vicanso".to_string(),
            name: "diving".to_string(),
            tag: "1.2.3".to_string(),
            arch: "arm64".to_string(),
        },
        ImageInfo {
            registry: "https://quay.io/v2".to_string(),
            user: "library".to_string(),
            name: "app".to_string(),
            tag: "latest".to_string(),
            arch: "".to_string(),
        },
    ];
    for c in cases {
        let formatted = format_image_ref(&c);
        let parsed = parse_image_info(&formatted);
        assert_eq!(parsed, c, "round trip failed for {formatted}");
    }
}

#[test]
fn format_omits_defaults() {
    let c = ImageInfo {
        registry: "https://index.docker.io/v2".to_string(),
        user: "library".to_string(),
        name: "redis".to_string(),
        tag: "latest".to_string(),
        arch: "".to_string(),
    };
    assert_eq!(format_image_ref(&c), "redis");
}

#[test]
fn auth_challenge_parses_fields() {
    let a = parse_auth_info(
        "Bearer realm=\"https://auth.docker.io/token\",service=\"registry.docker.io\",scope=\"repository:library/redis:pull\"",
    );
    assert_eq!(a.auth, "https://auth.docker.io/token");
    assert_eq!(a.service, "registry.docker.io");
    assert_eq!(a.scope, "repository:library/redis:pull");
    let url = token_url(&a);
    assert_eq!(
        url,
        "https://auth.docker.io/token?service=registry.docker.io&scope=repository:library/redis:pull"
    );
}

#[test]
fn auth_challenge_missing_field_is_empty() {
    let a = parse_auth_info("Bearer realm=\"https://x/token\"");
    assert_eq!(a.auth, "https://x/token");
    assert_eq!(a.service, "");
    assert_eq!(a.scope, "");
}

#[test]
fn token_expiry_uses_issue_time_and_lifetime() {
    let t = DockerTokenInfo {
        token: "abc".to_string(),
        expires_in: Some(300),
        issued_at: Some("2023-01-01T00:00:00Z".to_string()),
    };
    let issued = 1672531200i64;
    assert!(!t.expired(issued + 100));
    assert!(t.expired(issued + 400));
    let unparsable = DockerTokenInfo {
        token: "abc".to_string(),
        expires_in: Some(300),
        issued_at: None,
    };
    assert!(!unparsable.expired(issued));
}

#[test]
fn client_urls() {
    let c = DockerClient::new("https://index.docker.io/v2");
    assert!(!c.is_local());
    let p = DockerImageParams {
        user: "library".to_string(),
        img: "redis".to_string(),
        tag: "latest".to_string(),
        token: "".to_string(),
        arch: "".to_string(),
    };
    assert_eq!(
        c.manifest_url(&p, "latest"),
        "https://index.docker.io/v2/library/redis/manifests/latest"
    );
    assert_eq!(
        c.blob_url(&p, "sha256:ff"),
        "https://index.docker.io/v2/library/redis/blobs/sha256:ff"
    );
    let local = DockerClient::new("local-file");
    assert!(local.is_local());
    assert_eq!(
        manifest_cache_key("https://index.docker.io/v2/library/redis/manifests/latest", "amd64"),
        "https://index.docker.io/v2/library/redis/manifests/latest|amd64"
    );
}

#[test]
fn analysis_name_rules() {
    // a local archive reports its bare filename
    let local = parse_image_info("file://fixtures/hello.tar");
    assert_eq!(analysis_name(&local), "hello.tar");
    let bare = parse_image_info("file://hello.tar");
    assert_eq!(analysis_name(&bare), "hello.tar");
    // a registry reference reports user/name:tag
    let remote = parse_image_info("vicanso/diving:1.2.3");
    assert_eq!(analysis_name(&remote), "vicanso/diving:1.2.3");
    let default_user = parse_image_info("redis");
    assert_eq!(analysis_name(&default_user), "library/redis:latest");
}
