use diving::cache::{
    cached_token, get_docker_token_from_cache, get_manifest_from_cache,
    set_docker_token_to_cache, set_manifest_to_cache, ManifestCache, TokenCache,
};
use diving::docker::DockerTokenInfo;
use diving::oci_image::{ImageManifest, ImageManifestConfig, ImageManifestLayer};

fn token(name: &str) -> DockerTokenInfo {
    DockerTokenInfo {
        token: name.to_string(),
        expires_in: Some(300),
        issued_at: Some("2023-01-01T00:00:00Z".to_string()),
    }
}

#[test]
fn second_lookup_hits_the_token_cache() {
    let mut cache = TokenCache::new();
    let key = "https://auth.docker.io/token?service=s&scope=r".to_string();
    // first lookup misses, as a first analyze call would
    assert!(get_docker_token_from_cache(&mut cache, &key).is_none());
    set_docker_token_to_cache(&mut cache, &key, token("t1"));
    // the second analyze call finds the fresh token and skips the fetch
    let hit = get_docker_token_from_cache(&mut cache, &key).unwrap();
    assert_eq!(hit.token, "t1");
    let issued = 1672531200i64;
    assert!(!hit.expired(issued + 100));
}

#[test]
fn cached_token_respects_expiry() {
    let mut cache = TokenCache::new();
    let key = "k".to_string();
    let issued = 1672531200i64;
    assert!(cached_token(&mut cache, &key, issued).is_none());
    set_docker_token_to_cache(&mut cache, &key, token("t1"));
    // fresh: expires_in 300, checked 100 seconds after issue
    assert_eq!(cached_token(&mut cache, &key, issued + 100).unwrap(), "t1");
    // stale: checked past issue time plus lifetime
    assert!(cached_token(&mut cache, &key, issued + 400).is_none());
}

#[test]
fn token_cache_overwrites_by_key() {
    let mut cache = TokenCache::new();
    let key = "k".to_string();
    set_docker_token_to_cache(&mut cache, &key, token("a"));
    set_docker_token_to_cache(&mut cache, &key, token("b"));
    assert_eq!(get_docker_token_from_cache(&mut cache, &key).unwrap().token, "b");
    assert!(get_docker_token_from_cache(&mut cache, &"other".to_string()).is_none());
}

fn manifest(digest: &str) -> ImageManifest {
    ImageManifest {
        media_type: "application/vnd.docker.distribution.manifest.v2+json".to_string(),
        schema_version: 2,
        config: ImageManifestConfig {
            media_type: "application/vnd.docker.container.image.v1+json".to_string(),
            digest: digest.to_string(),
            size: 7,
        },
        layers: vec![ImageManifestLayer {
            media_type: "application/vnd.oci.image.layer.v1.tar".to_string(),
            digest: "sha256:layer".to_string(),
            size: 9,
        }],
    }
}

#[test]
fn manifest_cache_respects_ttl() {
    let mut cache = ManifestCache::new();
    let key = diving::docker::manifest_cache_key(
        "https://index.docker.io/v2/library/redis/manifests/latest",
        "amd64",
    );
    let now = 1000i64;
    assert!(get_manifest_from_cache(&mut cache, &key, now).is_none());
    set_manifest_to_cache(&mut cache, &key, manifest("sha256:cfg"), 300, now);
    let hit = get_manifest_from_cache(&mut cache, &key, now + 100).unwrap();
    assert_eq!(hit.config.digest, "sha256:cfg");
    assert_eq!(hit.layers.len(), 1);
    // past its expiry the entry counts as a miss
    assert!(get_manifest_from_cache(&mut cache, &key, now + 300).is_none());
}
