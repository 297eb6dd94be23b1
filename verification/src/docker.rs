//! Registry client logic: image reference parsing and formatting, the
//! `Www-Authenticate` challenge parser, bearer-token expiry, and the URLs
//! the fetch driver requests.

use vstd::prelude::*;

use crate::strops::{
    eq_str, find_char, lemma_free_concat, lemma_split_sep_free, seq_free_of, spec_find_char,
    spec_split, spec_starts_with, split_chars, starts_with_str,
};

verus! {

pub const REGISTRY: &'static str = "https://index.docker.io/v2";

pub const REGISTRY_LOCAL_FILE: &'static str = "local-file";

pub const FILE_PROTOCOL: &'static str = "file://";

/// A parsed image reference.
#[derive(Debug, PartialEq)]
pub struct ImageInfo {
    pub registry: String,
    pub user: String,
    pub name: String,
    pub tag: String,
    pub arch: String,
}

impl Clone for ImageInfo {
    fn clone(&self) -> (r: Self)
        ensures
            r == *self,
    {
        ImageInfo {
            registry: self.registry.clone(),
            user: self.user.clone(),
            name: self.name.clone(),
            tag: self.tag.clone(),
            arch: self.arch.clone(),
        }
    }
}

/// Mathematical model of an image reference.
#[verifier::ext_equal]
pub ghost struct ImageRefV {
    pub registry: Seq<char>,
    pub user: Seq<char>,
    pub name: Seq<char>,
    pub tag: Seq<char>,
    pub arch: Seq<char>,
}

impl View for ImageInfo {
    type V = ImageRefV;

    open spec fn view(&self) -> ImageRefV {
        ImageRefV {
            registry: self.registry@,
            user: self.user@,
            name: self.name@,
            tag: self.tag@,
            arch: self.arch@,
        }
    }
}

/// The architecture requested by a query string: the value of the last
/// well-formed `arch=` item.
pub open spec fn spec_arch_of_items(items: Seq<Seq<char>>) -> Seq<char>
    decreases items.len(),
{
    if items.len() == 0 {
        Seq::<char>::empty()
    } else {
        let kv = spec_split(items.last(), seq!['=']);
        if kv.len() == 2 && kv[0] == "arch"@ {
            kv[1]
        } else {
            spec_arch_of_items(items.drop_last())
        }
    }
}

/// Split a reference at its `?` query: the part before, and the requested
/// architecture from the part after.
pub open spec fn spec_split_query(s: Seq<char>) -> (Seq<char>, Seq<char>) {
    match spec_find_char(s, '?', 0) {
        Some(i) => (
            s.subrange(0, i),
            spec_arch_of_items(spec_split(s.subrange(i + 1, s.len() as int), seq!['&'])),
        ),
        None => (s, Seq::<char>::empty()),
    }
}

/// The parsed form of a reference string: a `file://` path keeps only a
/// name; otherwise the query is stripped, `:latest` is supplied when no
/// tag is present, and the remainder splits into name, user/name or
/// host/user/name.  Anything with more components parses to empty user
/// and name.
pub open spec fn spec_parse_image(s: Seq<char>) -> ImageRefV {
    if spec_starts_with(s, "file://"@) {
        ImageRefV {
            registry: "local-file"@,
            user: Seq::<char>::empty(),
            name: s.subrange("file://"@.len() as int, s.len() as int),
            tag: Seq::<char>::empty(),
            arch: Seq::<char>::empty(),
        }
    } else {
        let base = spec_split_query(s).0;
        let arch = spec_split_query(s).1;
        let with_tag = if spec_find_char(base, ':', 0) is Some {
            base
        } else {
            base + ":latest"@
        };
        let toks = spec_split(with_tag, seq!['/', ':']);
        let tag = toks.last();
        let vals = toks.drop_last();
        if vals.len() == 1 {
            ImageRefV {
                registry: "https://index.docker.io/v2"@,
                user: "library"@,
                name: vals[0],
                tag: tag,
                arch: arch,
            }
        } else if vals.len() == 2 {
            ImageRefV {
                registry: "https://index.docker.io/v2"@,
                user: vals[0],
                name: vals[1],
                tag: tag,
                arch: arch,
            }
        } else if vals.len() == 3 {
            ImageRefV {
                registry: "https://"@ + vals[0] + "/v2"@,
                user: vals[1],
                name: vals[2],
                tag: tag,
                arch: arch,
            }
        } else {
            ImageRefV {
                registry: "https://index.docker.io/v2"@,
                user: Seq::<char>::empty(),
                name: Seq::<char>::empty(),
                tag: tag,
                arch: arch,
            }
        }
    }
}

fn arch_from_query(query: &str) -> (r: String)
    ensures
        r@ == spec_arch_of_items(spec_split(query@, seq!['&'])),
{
    let amp: Vec<char> = vec!['&'];
    let eqc: Vec<char> = vec!['='];
    proof {
        assert(amp@ =~= seq!['&']);
        assert(eqc@ =~= seq!['=']);
    }
    let items = split_chars(query, &amp);
    let ghost iv = spec_split(query@, seq!['&']);
    let mut arch = String::new();
    let mut i: usize = 0;
    proof {
        assert(iv.subrange(0, 0) =~= Seq::<Seq<char>>::empty());
    }
    while i < items.len()
        invariant
            i <= items@.len(),
            items@.map_values(|t: String| t@) == iv,
            eqc@ == seq!['='],
            arch@ == spec_arch_of_items(iv.subrange(0, i as int)),
        decreases items@.len() - i,
    {
        proof {
            assert(iv.subrange(0, i + 1).drop_last() =~= iv.subrange(0, i as int));
            assert(iv.subrange(0, i + 1).last() == iv[i as int]);
            assert(iv[i as int] == items@[i as int]@);
        }
        let kv = split_chars(items[i].as_str(), &eqc);
        if kv.len() == 2 && eq_str(kv[0].as_str(), "arch") {
            arch = kv[1].clone();
            proof {
                let skv = spec_split(iv[i as int], seq!['=']);
                assert(skv[0] == kv@[0]@);
                assert(skv[1] == kv@[1]@);
            }
        } else {
            proof {
                let skv = spec_split(iv[i as int], seq!['=']);
                if kv.len() == 2 {
                    assert(skv[0] == kv@[0]@);
                }
                assert(!(skv.len() == 2 && skv[0] == "arch"@));
            }
        }
        i = i + 1;
    }
    proof {
        assert(iv.subrange(0, items@.len() as int) =~= iv);
    }
    arch
}

/// Parse one image reference string into its parts.
pub fn parse_image_info(image: &str) -> (r: ImageInfo)
    ensures
        r@ == spec_parse_image(image@),
{
    let n = image.unicode_len();
    if starts_with_str(image, "file://") {
        let fp = "file://";
        let rest = image.substring_char(fp.unicode_len(), n);
        let r = ImageInfo {
            registry: String::from_str("local-file"),
            user: String::new(),
            name: String::from_str(rest),
            tag: String::new(),
            arch: String::new(),
        };
        proof {
            assert(r@ =~= spec_parse_image(image@));
        }
        return r;
    }
    let (base, arch) = match find_char(image, '?') {
        Some(i) => {
            let b = String::from_str(image.substring_char(0, i));
            let q = image.substring_char(i + 1, n);
            let a = arch_from_query(q);
            (b, a)
        },
        None => (String::from_str(image), String::new()),
    };
    proof {
        assert(base@ == spec_split_query(image@).0);
        assert(arch@ == spec_split_query(image@).1);
    }
    let with_tag = if find_char(base.as_str(), ':').is_some() {
        base
    } else {
        base.concat(":latest")
    };
    let seps: Vec<char> = vec!['/', ':'];
    proof {
        assert(seps@ =~= seq!['/', ':']);
    }
    let mut toks = split_chars(with_tag.as_str(), &seps);
    proof {
        crate::strops::lemma_split_len(with_tag@, seq!['/', ':']);
    }
    let tag = match toks.pop() {
        Some(t) => t,
        None => String::new(),
    };
    let ghost vals = spec_split(with_tag@, seq!['/', ':']).drop_last();
    proof {
        assert(toks@.map_values(|t: String| t@) =~= vals);
    }
    let r = if toks.len() == 1 {
        ImageInfo {
            registry: String::from_str("https://index.docker.io/v2"),
            user: String::from_str("library"),
            name: toks[0].clone(),
            tag,
            arch,
        }
    } else if toks.len() == 2 {
        ImageInfo {
            registry: String::from_str("https://index.docker.io/v2"),
            user: toks[0].clone(),
            name: toks[1].clone(),
            tag,
            arch,
        }
    } else if toks.len() == 3 {
        let registry = String::from_str("https://").concat(toks[0].as_str()).concat("/v2");
        ImageInfo { registry, user: toks[1].clone(), name: toks[2].clone(), tag, arch }
    } else {
        ImageInfo {
            registry: String::from_str("https://index.docker.io/v2"),
            user: String::new(),
            name: String::new(),
            tag,
            arch,
        }
    };
    proof {
        assert forall|j: int| 0 <= j < toks@.len() implies #[trigger] vals[j] == toks@[j]@ by {
            assert(vals[j] == toks@.map_values(|t: String| t@)[j]);
        }
        assert(r@ =~= spec_parse_image(image@));
    }
    r
}

/// The host piece of a formatted reference: silent for the default
/// registry, otherwise the host with a trailing slash.
pub open spec fn fmt_host_part(m: ImageRefV) -> Seq<char> {
    if m.registry == "https://index.docker.io/v2"@ {
        Seq::<char>::empty()
    } else if m.registry.len() >= "https://"@.len() + "/v2"@.len() {
        m.registry.subrange("https://"@.len() as int, m.registry.len() - "/v2"@.len()) + "/"@
    } else {
        "/"@
    }
}

/// The user piece: silent for `library` on the default registry.
pub open spec fn fmt_user_part(m: ImageRefV) -> Seq<char> {
    if m.registry == "https://index.docker.io/v2"@ && m.user == "library"@ {
        Seq::<char>::empty()
    } else {
        m.user + "/"@
    }
}

/// The tag piece: silent for `latest`.
pub open spec fn fmt_tag_part(m: ImageRefV) -> Seq<char> {
    if m.tag == "latest"@ {
        Seq::<char>::empty()
    } else {
        ":"@ + m.tag
    }
}

/// The query piece: silent without a requested architecture.
pub open spec fn fmt_arch_part(m: ImageRefV) -> Seq<char> {
    if m.arch.len() == 0 {
        Seq::<char>::empty()
    } else {
        "?arch="@ + m.arch
    }
}

/// The canonical string of a reference, defaults omitted: the default
/// registry and the `library` user stay silent, a `latest` tag stays
/// silent, a requested architecture rides in the query.
pub open spec fn spec_format_image(m: ImageRefV) -> Seq<char> {
    if m.registry == "local-file"@ {
        "file://"@ + m.name
    } else {
        fmt_host_part(m) + fmt_user_part(m) + m.name + fmt_tag_part(m) + fmt_arch_part(m)
    }
}

/// Format a reference canonically, defaults omitted.
pub fn format_image_ref(info: &ImageInfo) -> (r: String)
    ensures
        r@ == spec_format_image(info@),
{
    if eq_str(info.registry.as_str(), "local-file") {
        return String::from_str("file://").concat(info.name.as_str());
    }
    let default_registry = eq_str(info.registry.as_str(), "https://index.docker.io/v2");
    let mut out = String::new();
    if !default_registry {
        let pre = "https://";
        let suf = "/v2";
        let rn = info.registry.unicode_len();
        let plen = pre.unicode_len();
        let slen = suf.unicode_len();
        proof {
            reveal_strlit("https://");
            reveal_strlit("/v2");
        }
        if rn >= plen + slen {
            let host = info.registry.as_str().substring_char(plen, rn - slen);
            out = out.concat(host).concat("/");
        } else {
            out = out.concat("/");
        }
    }
    if !(default_registry && eq_str(info.user.as_str(), "library")) {
        out = out.concat(info.user.as_str()).concat("/");
    }
    out = out.concat(info.name.as_str());
    if !eq_str(info.tag.as_str(), "latest") {
        out = out.concat(":").concat(info.tag.as_str());
    }
    if info.arch.unicode_len() > 0 {
        out = out.concat("?arch=").concat(info.arch.as_str());
    }
    proof {
        assert(out@ =~= spec_format_image(info@));
    }
    out
}

} // verus!

verus! {

/// A parsed `Www-Authenticate` challenge: token endpoint, service, scope.
#[derive(Debug, PartialEq)]
pub struct AuthInfo {
    pub auth: String,
    pub service: String,
    pub scope: String,
}

impl Clone for AuthInfo {
    fn clone(&self) -> (r: Self)
        ensures
            r == *self,
    {
        AuthInfo {
            auth: self.auth.clone(),
            service: self.service.clone(),
            scope: self.scope.clone(),
        }
    }
}

/// An item of a challenge is well formed when it reads `key="value"`.
pub open spec fn spec_auth_item_ok(item: Seq<char>) -> bool {
    let kv = spec_split(item, seq!['=']);
    kv.len() == 2 && kv[1].len() >= 2 && kv[1].first() == '"' && kv[1].last() == '"'
}

/// The key of a well-formed item: the last space-separated token before
/// the equals sign, so a leading scheme word is passed over.
pub open spec fn spec_auth_item_key(item: Seq<char>) -> Seq<char> {
    spec_split(spec_split(item, seq!['='])[0], seq![' ']).last()
}

/// The unquoted value of a well-formed item.
pub open spec fn spec_auth_item_value(item: Seq<char>) -> Seq<char> {
    let v = spec_split(item, seq!['='])[1];
    v.subrange(1, v.len() - 1)
}

/// The value of the last well-formed comma-separated item carrying `key`,
/// empty when there is none.
pub open spec fn spec_auth_field(items: Seq<Seq<char>>, key: Seq<char>) -> Seq<char>
    decreases items.len(),
{
    if items.len() == 0 {
        Seq::<char>::empty()
    } else if spec_auth_item_ok(items.last()) && spec_auth_item_key(items.last()) == key {
        spec_auth_item_value(items.last())
    } else {
        spec_auth_field(items.drop_last(), key)
    }
}

fn auth_field(items: &Vec<String>, key: &str) -> (r: String)
    ensures
        r@ == spec_auth_field(items@.map_values(|t: String| t@), key@),
{
    let ghost iv = items@.map_values(|t: String| t@);
    let eqc: Vec<char> = vec!['='];
    let spc: Vec<char> = vec![' '];
    proof {
        assert(eqc@ =~= seq!['=']);
        assert(spc@ =~= seq![' ']);
        assert(iv.subrange(0, 0) =~= Seq::<Seq<char>>::empty());
    }
    let mut value = String::new();
    let mut i: usize = 0;
    while i < items.len()
        invariant
            i <= items@.len(),
            iv == items@.map_values(|t: String| t@),
            eqc@ == seq!['='],
            spc@ == seq![' '],
            value@ == spec_auth_field(iv.subrange(0, i as int), key@),
        decreases items@.len() - i,
    {
        proof {
            assert(iv.subrange(0, i + 1).drop_last() =~= iv.subrange(0, i as int));
            assert(iv.subrange(0, i + 1).last() == iv[i as int]);
            assert(iv[i as int] == items@[i as int]@);
        }
        let kv = split_chars(items[i].as_str(), &eqc);
        let mut item_ok = false;
        if kv.len() == 2 {
            let v = &kv[1];
            let vn = v.as_str().unicode_len();
            if vn >= 2 {
                if v.as_str().get_char(0) == '"' && v.as_str().get_char(vn - 1) == '"' {
                    item_ok = true;
                }
            }
        }
        proof {
            let skv = spec_split(iv[i as int], seq!['=']);
            if kv.len() == 2 {
                assert(skv[0] == kv@[0]@);
                assert(skv[1] == kv@[1]@);
            }
            assert(item_ok == spec_auth_item_ok(iv[i as int]));
        }
        if item_ok {
            let keys = split_chars(kv[0].as_str(), &spc);
            proof {
                crate::strops::lemma_split_len(kv@[0]@, seq![' ']);
                assert(keys@.map_values(|t: String| t@).last() == keys@.last()@);
            }
            let last_key = &keys[keys.len() - 1];
            if eq_str(last_key.as_str(), key) {
                let v = &kv[1];
                let vn = v.as_str().unicode_len();
                value = String::from_str(v.as_str().substring_char(1, vn - 1));
                proof {
                    assert(value@ == spec_auth_item_value(iv[i as int]));
                }
            } else {
                proof {
                    assert(spec_auth_item_key(iv[i as int]) != key@);
                }
            }
        }
        i = i + 1;
    }
    proof {
        assert(iv.subrange(0, items@.len() as int) =~= iv);
    }
    value
}

/// Parse a `Www-Authenticate` challenge of simple `key="value"` pairs,
/// reading the `realm`, `service` and `scope` fields; a missing field
/// stays empty.
pub fn parse_auth_info(auth: &str) -> (r: AuthInfo)
    ensures
        ({
            let items = spec_split(auth@, seq![',']);
            &&& r.auth@ == spec_auth_field(items, "realm"@)
            &&& r.service@ == spec_auth_field(items, "service"@)
            &&& r.scope@ == spec_auth_field(items, "scope"@)
        }),
{
    let comma: Vec<char> = vec![','];
    proof {
        assert(comma@ =~= seq![',']);
    }
    let items = split_chars(auth, &comma);
    let realm = auth_field(&items, "realm");
    let service = auth_field(&items, "service");
    let scope = auth_field(&items, "scope");
    AuthInfo { auth: realm, service, scope }
}

/// The URL a bearer token is requested from.
pub fn token_url(info: &AuthInfo) -> (r: String)
    ensures
        r@ == info.auth@ + "?service="@ + info.service@ + "&scope="@ + info.scope@,
{
    let r = info.auth.clone().concat("?service=").concat(info.service.as_str()).concat(
        "&scope=",
    ).concat(info.scope.as_str());
    r
}

/// A bearer token with its issue time and lifetime, as the registry's
/// token endpoint returns it.
#[derive(Debug, PartialEq)]
pub struct DockerTokenInfo {
    pub token: String,
    pub expires_in: Option<i32>,
    pub issued_at: Option<String>,
}

impl Clone for DockerTokenInfo {
    fn clone(&self) -> (r: Self)
        ensures
            r == *self,
    {
        DockerTokenInfo {
            token: self.token.clone(),
            expires_in: if let Some(e) = self.expires_in {
                Some(e)
            } else {
                None
            },
            issued_at: match &self.issued_at {
                Some(s) => Some(s.clone()),
                None => None,
            },
        }
    }
}

/// The Unix timestamp an RFC 3339 string denotes, when it parses.
pub uninterp spec fn rfc3339_timestamp_of(s: Seq<char>) -> Option<i64>;

/// Relies on chrono's `DateTime<Utc>` string parser: the timestamp of an
/// RFC 3339 date, determined by the characters alone.
#[verifier::external_body]
fn parse_rfc3339_timestamp(s: &str) -> (r: Option<i64>)
    ensures
        r == rfc3339_timestamp_of(s@),
{
    <chrono::DateTime<chrono::Utc> as core::str::FromStr>::from_str(s).ok().map(|d| d.timestamp())
}

/// A token is expired once its issue time plus its lifetime, less a ten
/// second safety margin (never negative), has passed.  A token whose
/// issue time does not parse is never considered expired.
pub open spec fn spec_token_expired(t: DockerTokenInfo, now: i64) -> bool {
    let issued = match t.issued_at {
        Some(ref s) => s@,
        None => Seq::<char>::empty(),
    };
    match rfc3339_timestamp_of(issued) {
        Some(ts) => {
            let lifetime = match t.expires_in {
                Some(e) => e as int,
                None => 600,
            };
            let margin = if lifetime - 10 >= 0 {
                lifetime - 10
            } else {
                0
            };
            ts + margin <= now
        },
        None => false,
    }
}

impl DockerTokenInfo {
    /// Whether the token has expired at time `now`.
    pub fn expired(&self, now: i64) -> (r: bool)
        ensures
            r == spec_token_expired(*self, now),
    {
        let issued = match &self.issued_at {
            Some(s) => s.clone(),
            None => String::new(),
        };
        match parse_rfc3339_timestamp(issued.as_str()) {
            Some(ts) => {
                let lifetime: i64 = match self.expires_in {
                    Some(e) => e as i64,
                    None => 600,
                };
                let margin: i64 = if lifetime - 10 >= 0 {
                    lifetime - 10
                } else {
                    0
                };
                let lhs: i128 = (ts as i128) + (margin as i128);
                lhs <= now as i128
            },
            None => false,
        }
    }
}

/// Parameters of one image fetch.
#[derive(Debug, PartialEq)]
pub struct DockerImageParams {
    pub user: String,
    pub img: String,
    pub tag: String,
    pub token: String,
    pub arch: String,
}

impl Clone for DockerImageParams {
    fn clone(&self) -> (r: Self)
        ensures
            r == *self,
    {
        DockerImageParams {
            user: self.user.clone(),
            img: self.img.clone(),
            tag: self.tag.clone(),
            token: self.token.clone(),
            arch: self.arch.clone(),
        }
    }
}

/// A registry client bound to one registry root.
#[derive(Debug, PartialEq)]
pub struct DockerClient {
    pub registry: String,
}

impl Clone for DockerClient {
    fn clone(&self) -> (r: Self)
        ensures
            r == *self,
    {
        DockerClient { registry: self.registry.clone() }
    }
}

impl DockerClient {
    /// A client for the given registry root.
    pub fn new(register: &str) -> (r: Self)
        ensures
            r.registry@ == register@,
    {
        DockerClient { registry: String::from_str(register) }
    }

    /// Whether the client reads a local `docker save` archive instead of
    /// a registry.
    pub fn is_local(&self) -> (r: bool)
        ensures
            r == (self.registry@ == "local-file"@),
    {
        eq_str(self.registry.as_str(), "local-file")
    }

    /// The URL a manifest is fetched from.
    pub fn manifest_url(&self, params: &DockerImageParams, reference: &str) -> (r: String)
        ensures
            r@ == self.registry@ + "/"@ + params.user@ + "/"@ + params.img@ + "/manifests/"@
                + reference@,
    {
        self.registry.clone().concat("/").concat(params.user.as_str()).concat("/").concat(
            params.img.as_str(),
        ).concat("/manifests/").concat(reference)
    }

    /// The URL a blob is fetched from.
    pub fn blob_url(&self, params: &DockerImageParams, digest: &str) -> (r: String)
        ensures
            r@ == self.registry@ + "/"@ + params.user@ + "/"@ + params.img@ + "/blobs/"@
                + digest@,
    {
        self.registry.clone().concat("/").concat(params.user.as_str()).concat("/").concat(
            params.img.as_str(),
        ).concat("/blobs/").concat(digest)
    }
}

/// The key a manifest is cached under: its URL and the architecture,
/// joined by a bar so distinct pairs never collide.
pub fn manifest_cache_key(url: &str, arch: &str) -> (r: String)
    ensures
        r@ == url@ + "|"@ + arch@,
{
    String::from_str(url).concat("|").concat(arch)
}

/// The `Authorization` header value of a bearer token.
pub fn bearer_value(token: &str) -> (r: String)
    ensures
        r@ == "Bearer "@ + token@,
{
    String::from_str("Bearer ").concat(token)
}

/// The display name of an analyzed image, `user/name:tag`.
pub fn image_full_name(params: &DockerImageParams) -> (r: String)
    ensures
        r@ == params.user@ + "/"@ + params.img@ + ":"@ + params.tag@,
{
    params.user.clone().concat("/").concat(params.img.as_str()).concat(":").concat(
        params.tag.as_str(),
    )
}

/// The name an analysis reports: the bare filename for a local archive,
/// `user/name:tag` for a registry reference.
pub open spec fn spec_analysis_name(m: ImageRefV) -> Seq<char> {
    if m.registry == "local-file"@ {
        match crate::strops::spec_rfind_char(m.name, '/', m.name.len() as int) {
            Some(i) => m.name.subrange(i + 1, m.name.len() as int),
            None => m.name,
        }
    } else {
        m.user + "/"@ + m.name + ":"@ + m.tag
    }
}

pub fn analysis_name(info: &ImageInfo) -> (r: String)
    ensures
        r@ == spec_analysis_name(info@),
{
    if eq_str(info.registry.as_str(), "local-file") {
        let n = info.name.unicode_len();
        match crate::strops::rfind_char(info.name.as_str(), '/') {
            Some(i) => String::from_str(info.name.as_str().substring_char(i + 1, n)),
            None => info.name.clone(),
        }
    } else {
        info.user.clone().concat("/").concat(info.name.as_str()).concat(":").concat(
            info.tag.as_str(),
        )
    }
}

/// A `docker save` archive's own manifest: the config blob name, the
/// repository tags, and the layer archive names.
#[derive(Debug, PartialEq)]
pub struct LocalManifest {
    pub config: String,
    pub repo_tags: Vec<String>,
    pub layers: Vec<String>,
}

impl LocalManifest {
    /// The image manifest a local archive stands for: one layer
    /// descriptor per layer archive, with plain tar media types and
    /// sizes still unknown.
    pub fn to_image_manifest(&self) -> (r: crate::oci_image::ImageManifest)
        ensures
            r.media_type@ == "application/vnd.docker.distribution.manifest.v2+json"@,
            r.schema_version == 2,
            r.config.digest@ == self.config@,
            r.config.media_type@ == Seq::<char>::empty(),
            r.config.size == 0,
            r.layers@.len() == self.layers@.len(),
            forall|i: int|
                0 <= i < self.layers@.len() ==> {
                    let l = #[trigger] r.layers@[i];
                    &&& l.digest@ == self.layers@[i]@
                    &&& l.media_type@ == "application/vnd.docker.image.rootfs.diff.tar"@
                    &&& l.size == 0
                },
    {
        let mut layers: Vec<crate::oci_image::ImageManifestLayer> = Vec::new();
        let mut i: usize = 0;
        while i < self.layers.len()
            invariant
                i <= self.layers@.len(),
                layers@.len() == i,
                forall|j: int|
                    0 <= j < i ==> {
                        let l = #[trigger] layers@[j];
                        &&& l.digest@ == self.layers@[j]@
                        &&& l.media_type@ == "application/vnd.docker.image.rootfs.diff.tar"@
                        &&& l.size == 0
                    },
            decreases self.layers@.len() - i,
        {
            layers.push(
                crate::oci_image::ImageManifestLayer {
                    media_type: String::from_str("application/vnd.docker.image.rootfs.diff.tar"),
                    digest: self.layers[i].clone(),
                    size: 0,
                },
            );
            i = i + 1;
        }
        crate::oci_image::ImageManifest {
            media_type: String::from_str("application/vnd.docker.distribution.manifest.v2+json"),
            schema_version: 2,
            config: crate::oci_image::ImageManifestConfig {
                media_type: String::new(),
                digest: self.config.clone(),
                size: 0,
            },
            layers,
        }
    }
}

} // verus!

verus! {

/// A usable reference component: non-empty and free of the separator
/// characters the parser splits on.
pub open spec fn ref_component_ok(s: Seq<char>) -> bool {
    s.len() > 0 && seq_free_of(s, '/') && seq_free_of(s, ':') && seq_free_of(s, '?')
        && seq_free_of(s, '&') && seq_free_of(s, '=')
}

/// A reference that formatting and parsing round-trip: either a local
/// archive with only a name, or a registry reference whose components
/// are usable and whose registry is the default or a well-shaped
/// `https://host/v2` root.
pub open spec fn wf_image_ref(m: ImageRefV) -> bool {
    ||| (m.registry == "local-file"@ && m.user.len() == 0 && m.tag.len() == 0 && m.arch.len() == 0
        && m.name.len() > 0)
    ||| ({
        &&& ref_component_ok(m.user)
        &&& ref_component_ok(m.name)
        &&& ref_component_ok(m.tag)
        &&& (m.arch.len() == 0 || ref_component_ok(m.arch))
        &&& (m.registry == "https://index.docker.io/v2"@ || ({
            let host = m.registry.subrange(
                "https://"@.len() as int,
                m.registry.len() - "/v2"@.len(),
            );
            &&& m.registry.len() >= "https://"@.len() + "/v2"@.len()
            &&& m.registry =~= "https://"@ + host + "/v2"@
            &&& ref_component_ok(host)
        }))
    })
}

/// The formatted pieces carry no stray separators: hosts, users and tags
/// are free of the characters the parser splits on.
proof fn lemma_rt_frees(m: ImageRefV)
    requires
        wf_image_ref(m),
        m.registry != "local-file"@,
    ensures
        seq_free_of(fmt_host_part(m), ':'),
        seq_free_of(fmt_host_part(m), '?'),
        seq_free_of(fmt_user_part(m), ':'),
        seq_free_of(fmt_user_part(m), '?'),
        seq_free_of(fmt_tag_part(m), '?'),
        seq_free_of(fmt_arch_part(m), ':'),
{
    reveal_strlit("local-file");
    reveal_strlit("https://index.docker.io/v2");
    reveal_strlit("https://");
    reveal_strlit("/v2");
    reveal_strlit("latest");
    reveal_strlit("library");
    reveal_strlit("?arch=");
    reveal_strlit("/");
    reveal_strlit(":");
    let default_reg = m.registry == "https://index.docker.io/v2"@;
    let host = m.registry.subrange("https://"@.len() as int, m.registry.len() - "/v2"@.len());
    if !default_reg {
        assert forall|i: int| 0 <= i < fmt_host_part(m).len() implies fmt_host_part(m)[i] != ':'
            && fmt_host_part(m)[i] != '?' by {
            if i < host.len() {
                assert(fmt_host_part(m)[i] == host[i]);
            } else {
                assert(fmt_host_part(m)[i] == '/');
            }
        }
    }
    if !(default_reg && m.user == "library"@) {
        assert forall|i: int| 0 <= i < fmt_user_part(m).len() implies fmt_user_part(m)[i] != ':'
            && fmt_user_part(m)[i] != '?' by {
            if i < m.user.len() {
                assert(fmt_user_part(m)[i] == m.user[i]);
            } else {
                assert(fmt_user_part(m)[i] == '/');
            }
        }
    }
    if m.tag != "latest"@ {
        assert forall|i: int| 0 <= i < fmt_tag_part(m).len() implies fmt_tag_part(m)[i] != '?' by {
            if i == 0 {
                assert(fmt_tag_part(m)[i] == ':');
            } else {
                assert(fmt_tag_part(m)[i] == m.tag[i - 1]);
            }
        }
    }
    if m.arch.len() > 0 {
        assert forall|i: int| 0 <= i < fmt_arch_part(m).len() implies fmt_arch_part(m)[i]
            != ':' by {
            if i < "?arch="@.len() {
                assert(fmt_arch_part(m)[i] == "?arch="@[i]);
            } else {
                assert(fmt_arch_part(m)[i] == m.arch[i - "?arch="@.len()]);
            }
        }
    }
}

/// A formatted registry reference never starts with the file prefix.
proof fn lemma_rt_not_file(m: ImageRefV)
    requires
        wf_image_ref(m),
        m.registry != "local-file"@,
    ensures
        !spec_starts_with(spec_format_image(m), "file://"@),
{
    reveal_strlit("file://");
    reveal_strlit("local-file");
    reveal_strlit("latest");
    lemma_rt_frees(m);
    let f = spec_format_image(m);
    let base0 = fmt_host_part(m) + fmt_user_part(m) + m.name;
    let tag_part = fmt_tag_part(m);
    let arch_part = fmt_arch_part(m);
    assert(f == base0 + tag_part + arch_part) by {
        assert(f =~= fmt_host_part(m) + fmt_user_part(m) + m.name + tag_part + arch_part);
        assert(base0 + tag_part + arch_part =~= fmt_host_part(m) + fmt_user_part(m) + m.name
            + tag_part + arch_part);
    }
    lemma_free_concat(fmt_host_part(m), fmt_user_part(m), ':');
    lemma_free_concat(fmt_host_part(m) + fmt_user_part(m), m.name, ':');
    assert(seq_free_of(base0, ':'));
    if spec_starts_with(f, "file://"@) {
        assert(f.subrange(0, 7)[4] == ':');
        assert(f.subrange(0, 7)[5] == '/');
        assert(f[4] == ':' && f[5] == '/');
        let bt = base0 + tag_part;
        assert(f =~= bt + arch_part);
        if m.tag == "latest"@ {
            assert(seq_free_of(bt, ':')) by {
                assert(bt =~= base0);
            }
            lemma_free_concat(bt, arch_part, ':');
            assert(f[4] != ':');
        } else {
            reveal_strlit(":");
            if 4 < base0.len() {
                assert(f[4] == base0[4]);
            } else if 4 == base0.len() {
                assert(f[5] == tag_part[1]);
                assert(tag_part[1] == m.tag[0]);
                assert(m.tag[0] != '/');
            } else {
                assert(f[4] == (bt + arch_part)[4]);
                if 4 < bt.len() {
                    assert(f[4] == tag_part[4 - base0.len()]);
                    assert(4 - base0.len() >= 1);
                    assert(tag_part[4 - base0.len()] == m.tag[4 - base0.len() - 1]);
                } else {
                    assert(f[4] == arch_part[4 - bt.len()]);
                }
            }
        }
    }
}

/// Splitting the query off a formatted reference yields the reference
/// without its query, and the requested architecture.
proof fn lemma_rt_query(m: ImageRefV)
    requires
        wf_image_ref(m),
        m.registry != "local-file"@,
    ensures
        spec_split_query(spec_format_image(m)).0 == fmt_host_part(m) + fmt_user_part(m) + m.name
            + fmt_tag_part(m),
        spec_split_query(spec_format_image(m)).1 == m.arch,
{
    reveal_strlit("local-file");
    reveal_strlit("?arch=");
    reveal_strlit("arch=");
    reveal_strlit("arch");
    lemma_rt_frees(m);
    assert(seq!['='].contains('=')) by {
        assert(seq!['='][0] == '=');
    }
    let f = spec_format_image(m);
    let base0 = fmt_host_part(m) + fmt_user_part(m) + m.name;
    let bt = base0 + fmt_tag_part(m);
    lemma_free_concat(fmt_host_part(m), fmt_user_part(m), '?');
    lemma_free_concat(fmt_host_part(m) + fmt_user_part(m), m.name, '?');
    assert(seq_free_of(base0, '?')) by {
        assert(base0 =~= (fmt_host_part(m) + fmt_user_part(m)) + m.name);
    }
    lemma_free_concat(base0, fmt_tag_part(m), '?');
    if m.arch.len() == 0 {
        assert(f =~= bt);
        crate::strops::lemma_find_none(f, '?', 0);
        assert(spec_split_query(f).0 =~= bt);
    } else {
        let q = "arch="@ + m.arch;
        assert(f =~= bt + seq!['?'] + q) by {
            assert("?arch="@ =~= seq!['?'] + "arch="@);
            assert(f =~= fmt_host_part(m) + fmt_user_part(m) + m.name + fmt_tag_part(m)
                + fmt_arch_part(m));
        }
        crate::strops::lemma_find_concat(bt, '?', q);
        assert(spec_find_char(f, '?', 0) == Some(bt.len() as int));
        assert(f.subrange(0, bt.len() as int) =~= bt);
        assert(f.subrange(bt.len() as int + 1, f.len() as int) =~= q);
        assert(seq_free_of(q, '&')) by {
            assert(seq_free_of("arch="@, '&'));
            lemma_free_concat("arch="@, m.arch, '&');
        }
        lemma_split_sep_free(q, seq!['&']);
        assert(q =~= "arch"@ + seq!['='] + m.arch) by {
            assert("arch="@ =~= "arch"@ + seq!['=']);
        }
        crate::strops::lemma_split_concat_sep("arch"@, '=', m.arch, seq!['=']);
        lemma_split_sep_free(m.arch, seq!['=']);
        let kv = spec_split(q, seq!['=']);
        assert(kv =~= seq!["arch"@, m.arch]);
        assert(spec_arch_of_items(seq![q]) == m.arch) by {
            assert(seq![q].last() == q);
            assert(kv.len() == 2 && kv[0] == "arch"@);
        }
    }
}

/// Parsing a canonically formatted reference restores the reference:
/// omitted defaults (the default registry, the `library` user, the
/// `latest` tag) come back as themselves.
#[verifier::rlimit(50)]
pub proof fn lemma_parse_format_round_trip(m: ImageRefV)
    requires
        wf_image_ref(m),
    ensures
        spec_parse_image(spec_format_image(m)) == m,
{
    let f = spec_format_image(m);
    reveal_strlit("file://");
    reveal_strlit("local-file");
    reveal_strlit("https://index.docker.io/v2");
    reveal_strlit("https://");
    reveal_strlit("/v2");
    reveal_strlit(":latest");
    reveal_strlit("latest");
    reveal_strlit("library");
    reveal_strlit("/");
    reveal_strlit(":");
    if m.registry == "local-file"@ {
        assert(f =~= "file://"@ + m.name);
        assert(spec_starts_with(f, "file://"@)) by {
            assert(f.subrange(0, 7) =~= "file://"@);
        }
        assert(f.subrange("file://"@.len() as int, f.len() as int) =~= m.name);
        assert(spec_parse_image(f) =~= m);
    } else {
        assert(seq!['/', ':'].contains('/') && seq!['/', ':'].contains(':')) by {
            assert(seq!['/', ':'][0] == '/');
            assert(seq!['/', ':'][1] == ':');
        }
        let default_reg = m.registry == "https://index.docker.io/v2"@;
        let host = m.registry.subrange(
            "https://"@.len() as int,
            m.registry.len() - "/v2"@.len(),
        );
        lemma_rt_not_file(m);
        lemma_rt_query(m);
        lemma_rt_frees(m);
        let base0 = fmt_host_part(m) + fmt_user_part(m) + m.name;
        let base = spec_split_query(f).0;

        // a tag separator is present exactly when the tag is spelled out
        let with_tag = if spec_find_char(base, ':', 0) is Some {
            base
        } else {
            base + ":latest"@
        };
        assert(with_tag =~= base0 + seq![':'] + m.tag) by {
            lemma_free_concat(fmt_host_part(m), fmt_user_part(m), ':');
            lemma_free_concat(fmt_host_part(m) + fmt_user_part(m), m.name, ':');
            assert(seq_free_of(base0, ':')) by {
                assert(base0 =~= (fmt_host_part(m) + fmt_user_part(m)) + m.name);
            }
            if m.tag == "latest"@ {
                assert(base =~= base0);
                crate::strops::lemma_find_none(base0, ':', 0);
                assert(with_tag =~= base0 + ":latest"@);
                assert(":latest"@ =~= seq![':'] + "latest"@);
            } else {
                crate::strops::lemma_find_concat(base0, ':', m.tag);
                assert(base =~= base0 + seq![':'] + m.tag) by {
                    assert(fmt_tag_part(m) =~= seq![':'] + m.tag);
                }
                assert(spec_find_char(base, ':', 0) is Some);
            }
        }

        // the separators cut the remainder into its components
        let seps = seq!['/', ':'];
        let toks = spec_split(with_tag, seps);
        lemma_split_sep_free(m.tag, seps);
        if default_reg && m.user == "library"@ {
            assert(with_tag =~= m.name + seq![':'] + m.tag) by {
                assert(base0 =~= m.name);
            }
            crate::strops::lemma_split_concat_sep(m.name, ':', m.tag, seps);
            assert(toks =~= seq![m.name, m.tag]);
            assert(toks.drop_last() =~= seq![m.name]);
            assert(spec_parse_image(f) =~= m);
        } else if default_reg {
            assert(with_tag =~= m.user + seq!['/'] + (m.name + seq![':'] + m.tag)) by {
                assert(base0 =~= m.user + "/"@ + m.name);
            }
            crate::strops::lemma_split_concat_sep(m.name, ':', m.tag, seps);
            crate::strops::lemma_split_concat_sep(m.user, '/', m.name + seq![':'] + m.tag, seps);
            assert(toks =~= seq![m.user, m.name, m.tag]);
            assert(toks.drop_last() =~= seq![m.user, m.name]);
            assert(spec_parse_image(f) =~= m);
        } else {
            assert(with_tag =~= host + seq!['/'] + (m.user + seq!['/'] + (m.name + seq![':']
                + m.tag))) by {
                assert(base0 =~= host + "/"@ + m.user + "/"@ + m.name);
            }
            crate::strops::lemma_split_concat_sep(m.name, ':', m.tag, seps);
            crate::strops::lemma_split_concat_sep(m.user, '/', m.name + seq![':'] + m.tag, seps);
            crate::strops::lemma_split_concat_sep(
                host,
                '/',
                m.user + seq!['/'] + (m.name + seq![':'] + m.tag),
                seps,
            );
            assert(toks =~= seq![host, m.user, m.name, m.tag]);
            assert(toks.drop_last() =~= seq![host, m.user, m.name]);
            assert(spec_parse_image(f).registry =~= m.registry);
            assert(spec_parse_image(f) =~= m);
        }
    }
}

} // verus!
