//! The builder API client's pure core: the request paths it addresses,
//! the endpoint normalization rule, the wire shapes it exchanges, and the
//! paging loop of a package search. Sending requests is I/O and stays with
//! the caller; the search loop takes the request step as a closure.

use vstd::prelude::*;

verus! {

use crate::archive::PackageIdent;
use vstd::string::StringSliceAdditionalSpecFns;

/// An error body the remote API returns.
#[derive(Clone, Debug)]
pub struct NetError {
    pub code: i32,
    pub msg: String,
}

/// A private origin signing key as the API serializes it; the 64-bit ids
/// travel as decimal strings in JSON so double-precision consumers keep
/// them intact.
#[derive(Clone, Debug)]
pub struct OriginPrivateSigningKey {
    pub id: u64,
    pub origin_id: u64,
    pub name: String,
    pub revision: String,
    pub body: Vec<u8>,
    pub owner_id: u64,
}

/// A package as the API returns it.
#[derive(Clone, Debug)]
pub struct Package {
    pub ident: PackageIdent,
    pub checksum: String,
    pub manifest: String,
    pub deps: Vec<PackageIdent>,
    pub tdeps: Vec<PackageIdent>,
    pub exposes: Vec<u32>,
    pub config: String,
}

/// One page of search results.
#[derive(Clone, Debug)]
pub struct PackageResults<T> {
    pub range_start: i64,
    pub range_end: i64,
    pub total_count: i64,
    pub data: Vec<T>,
}

/// A channel name as the API returns it.
#[derive(Clone, Debug)]
pub struct OriginChannelIdent {
    pub name: String,
}

/// What `percent-encoding`'s path-segment encoding makes of a byte string.
pub uninterp spec fn pseg_encoded(b: Seq<u8>) -> Seq<char>;

/// Relies on url's `percent_encode` with `PATH_SEGMENT_ENCODE_SET`: the
/// result depends on the bytes alone.
#[verifier::external_body]
fn percent_encode_path_segment(term: &str) -> (r: String)
    ensures
        r@ == pseg_encoded(term.spec_bytes()),
{
    url::percent_encoding::percent_encode(
        term.as_bytes(),
        url::percent_encoding::PATH_SEGMENT_ENCODE_SET,
    ).to_string()
}

/// The key listing path of an origin.
pub fn origin_keys_path(origin: &str) -> (r: String)
    ensures
        r@ == "depot/origins/"@ + origin@ + "/keys"@,
{
    let mut s = String::from_str("depot/origins/");
    s.append(origin);
    s.append("/keys");
    s
}

/// The depot path of a package.
pub fn package_path(package: &PackageIdent) -> (r: String)
    ensures
        r@ == "depot/pkgs/"@ + ident_text(*package),
{
    let mut s = String::from_str("depot/pkgs/");
    s.append(package.ident_string().as_str());
    s
}

/// The textual form of a package identifier.
pub open spec fn ident_text(p: PackageIdent) -> Seq<char> {
    p.origin@ + "/"@ + p.name@ + (match p.version {
        Some(v) => "/"@ + v@ + (match p.release {
            Some(rl) => "/"@ + rl@,
            None => Seq::<char>::empty(),
        }),
        None => Seq::<char>::empty(),
    })
}

/// The download path of a package.
pub fn package_download(package: &PackageIdent) -> (r: String)
    ensures
        r@ == "depot/pkgs/"@ + ident_text(*package) + "/download"@,
{
    let mut s = package_path(package);
    s.append("/download");
    s
}

/// The search path for a term, percent-encoded as one path segment.
pub fn package_search(term: &str) -> (r: String)
    ensures
        r@ == "depot/pkgs/search/"@ + pseg_encoded(term.spec_bytes()),
{
    let mut s = String::from_str("depot/pkgs/search/");
    let enc = percent_encode_path_segment(term);
    s.append(enc.as_str());
    s
}

/// The channel-scoped path of a package: the version and release parts
/// appear as far as the identifier carries them.
pub fn channel_package_path(channel: &str, package: &PackageIdent) -> (r: String)
    ensures
        r@ == "depot/channels/"@ + package.origin@ + "/"@ + channel@ + "/pkgs/"@ + package.name@
            + (match package.version {
            Some(v) => "/"@ + v@ + (match package.release {
                Some(rl) => "/"@ + rl@,
                None => Seq::<char>::empty(),
            }),
            None => Seq::<char>::empty(),
        }),
{
    let mut s = String::from_str("depot/channels/");
    s.append(package.origin.as_str());
    s.append("/");
    s.append(channel);
    s.append("/pkgs/");
    s.append(package.name.as_str());
    match &package.version {
        Some(v) => {
            s.append("/");
            s.append(v.as_str());
            match &package.release {
                Some(rl) => {
                    s.append("/");
                    s.append(rl.as_str());
                },
                None => {},
            }
        },
        None => {},
    }
    proof {
        assert(s@ =~= "depot/channels/"@ + package.origin@ + "/"@ + channel@ + "/pkgs/"@
            + package.name@ + (match package.version {
            Some(v) => "/"@ + v@ + (match package.release {
                Some(rl) => "/"@ + rl@,
                None => Seq::<char>::empty(),
            }),
            None => Seq::<char>::empty(),
        }));
    }
    s
}

/// The channel listing path of a fully qualified package.
pub fn package_channels_path(package: &PackageIdent) -> (r: String)
    requires
        package.version is Some,
        package.release is Some,
    ensures
        r@ == "depot/pkgs/"@ + package.origin@ + "/"@ + package.name@ + "/"@
            + package.version->0@ + "/"@ + package.release->0@ + "/channels"@,
{
    let mut s = String::from_str("depot/pkgs/");
    s.append(package.origin.as_str());
    s.append("/");
    s.append(package.name.as_str());
    s.append("/");
    match &package.version {
        Some(v) => s.append(v.as_str()),
        None => {},
    }
    s.append("/");
    match &package.release {
        Some(rl) => s.append(rl.as_str()),
        None => {},
    }
    s.append("/channels");
    proof {
        assert(s@ =~= "depot/pkgs/"@ + package.origin@ + "/"@ + package.name@ + "/"@
            + package.version->0@ + "/"@ + package.release->0@ + "/channels"@);
    }
    s
}

/// The promote path of a fully qualified package in a channel.
pub fn channel_package_promote(channel: &str, package: &PackageIdent) -> (r: String)
    requires
        package.version is Some,
        package.release is Some,
    ensures
        r@ == "depot/channels/"@ + package.origin@ + "/"@ + channel@ + "/pkgs/"@ + package.name@
            + "/"@ + package.version->0@ + "/"@ + package.release->0@ + "/promote"@,
{
    let mut s = channel_action_path(channel, package);
    s.append("/promote");
    s
}

/// The demote path of a fully qualified package in a channel.
pub fn channel_package_demote(channel: &str, package: &PackageIdent) -> (r: String)
    requires
        package.version is Some,
        package.release is Some,
    ensures
        r@ == "depot/channels/"@ + package.origin@ + "/"@ + channel@ + "/pkgs/"@ + package.name@
            + "/"@ + package.version->0@ + "/"@ + package.release->0@ + "/demote"@,
{
    let mut s = channel_action_path(channel, package);
    s.append("/demote");
    s
}

/// The channel-scoped fully qualified package path both actions share.
fn channel_action_path(channel: &str, package: &PackageIdent) -> (r: String)
    requires
        package.version is Some,
        package.release is Some,
    ensures
        r@ == "depot/channels/"@ + package.origin@ + "/"@ + channel@ + "/pkgs/"@ + package.name@
            + "/"@ + package.version->0@ + "/"@ + package.release->0@,
{
    let mut s = String::from_str("depot/channels/");
    s.append(package.origin.as_str());
    s.append("/");
    s.append(channel);
    s.append("/pkgs/");
    s.append(package.name.as_str());
    s.append("/");
    match &package.version {
        Some(v) => s.append(v.as_str()),
        None => {},
    }
    s.append("/");
    match &package.release {
        Some(rl) => s.append(rl.as_str()),
        None => {},
    }
    proof {
        assert(s@ =~= "depot/channels/"@ + package.origin@ + "/"@ + channel@ + "/pkgs/"@
            + package.name@ + "/"@ + package.version->0@ + "/"@ + package.release->0@);
    }
    s
}

/// The position of the "://" scheme separator's colon, if any.
fn find_scheme_sep(b: &[u8]) -> (r: Option<usize>)
    ensures
        r matches Some(i) ==> i + 3 <= b@.len(),
{
    let n = b.len();
    if n < 3 {
        return None;
    }
    let mut sep: usize = 0;
    while sep + 2 < n
        invariant
            n == b@.len(),
            n >= 3,
            sep + 2 <= n,
        decreases n - sep,
    {
        if b[sep] == 58 && b[sep + 1] == 47 && b[sep + 2] == 47 {
            return Some(sep);
        }
        sep = sep + 1;
    }
    None
}

/// The first slash at or after `from`, if any.
fn find_slash_from(b: &[u8], from: usize) -> (r: Option<usize>)
    ensures
        r matches Some(i) ==> from <= i < b@.len(),
{
    let mut i: usize = from;
    while i < b.len()
        invariant
            from <= i,
        decreases b@.len() - i,
    {
        if b[i] == 47 {
            return Some(i);
        }
        i = i + 1;
    }
    None
}

/// The errors of the builder client's core.
#[derive(Clone, Debug)]
pub enum BuilderError {
    /// The endpoint is not a URL this client can address.
    UrlParseError { endpoint: String },
    /// The remote replied outside the protocol; carried by the caller's
    /// transport layer into the paging loop.
    ApiError { code: u16, body: String },
}

/// The client's addressing state: where requests go.
#[derive(Clone, Debug)]
pub struct BuilderAPIClient {
    pub endpoint: String,
    pub product: String,
    pub version: String,
}

/// Whether an endpoint carries an explicit request path after its scheme
/// and authority.
pub open spec fn has_explicit_path(b: Seq<u8>) -> bool {
    exists|i: int| 0 <= i < b.len() - 1 && after_scheme_slash(b, i)
}

/// Position `i` starts the path: a single slash after the authority, with
/// the scheme's double slash before it.
pub open spec fn after_scheme_slash(b: Seq<u8>, i: int) -> bool {
    b[i] == 47 && i > 0 && b[i - 1] != 47 && exists|j: int|
        0 < j < i && #[trigger] b[j] == 47 && b[j - 1] == 47
}

impl BuilderAPIClient {
    /// A client for the given endpoint. An endpoint without a request
    /// path, or with the bare root path, addresses the default API root
    /// `/v1`; an endpoint without a scheme separator is not a URL.
    pub fn new(endpoint: &str, product: &str, version: &str) -> (r: Result<
        BuilderAPIClient,
        BuilderError,
    >)
        ensures
            r matches Ok(c) ==> c.product@ == product@ && c.version@ == version@,
            r matches Err(e) ==> e is UrlParseError,
    {
        let b = endpoint.as_bytes();
        if b.len() < 3 {
            return Err(BuilderError::UrlParseError { endpoint: endpoint.to_owned() });
        }
        let sep = match find_scheme_sep(b) {
            Some(x) => x,
            None => {
                return Err(BuilderError::UrlParseError { endpoint: endpoint.to_owned() });
            },
        };
        let path_found = find_slash_from(b, sep + 3);
        let mut ep = endpoint.to_owned();
        match path_found {
            None => {
                ep.append("/v1");
            },
            Some(path_at) => {
                if path_at == b.len() - 1 {
                    // the bare root path: extend it into the API root
                    ep.append("v1");
                }
            },
        }
        Ok(
            BuilderAPIClient {
                endpoint: ep,
                product: product.to_owned(),
                version: version.to_owned(),
            },
        )
    }

    /// A boxed client, for callers that store one behind a handle.
    pub fn create(endpoint: &str, product: &str, version: &str) -> (r: Result<
        Box<BuilderAPIClient>,
        BuilderError,
    >)
        ensures
            r matches Ok(c) ==> c.product@ == product@ && c.version@ == version@,
            r matches Err(e) ==> e is UrlParseError,
    {
        match Self::new(endpoint, product, version) {
            Ok(c) => Ok(Box::new(c)),
            Err(e) => Err(e),
        }
    }

    /// The paging loop of a package search: asks the step for pages from
    /// the current offset until the limit is reached, the step reports no
    /// further pages, or a page brings nothing new. Hands back the
    /// packages found, cut to the limit, and the total the last page
    /// reported.
    pub fn search_package_impl<F: Fn(
        &BuilderAPIClient,
        &str,
        Option<&str>,
        usize,
    ) -> Result<(PackageResults<PackageIdent>, bool), BuilderError>>(
        &self,
        search_term: &str,
        limit: usize,
        token: Option<&str>,
        search_with_range: F,
    ) -> (r: Result<(Vec<PackageIdent>, usize), BuilderError>)
        requires
            forall|c: &BuilderAPIClient, t: &str, tk: Option<&str>, range: usize|
                call_requires(search_with_range, (c, t, tk, range)),
        ensures
            r matches Ok(x) ==> x.0@.len() <= limit && (exists|
                page: PackageResults<PackageIdent>,
                more: bool,
                k: usize,
            |
                call_ensures(search_with_range, (self, search_term, token, k), Ok((page, more)))
                    && x.1 == (if page.total_count >= 0 {
                    page.total_count as usize
                } else {
                    0
                })),
            r matches Err(e) ==> exists|k: usize|
                call_ensures(
                    search_with_range,
                    (self, search_term, token, k),
                    Err::<(PackageResults<PackageIdent>, bool), BuilderError>(e),
                ),
    {
        let mut packages: Vec<PackageIdent> = Vec::new();
        loop
            invariant
                forall|c: &BuilderAPIClient, t: &str, tk: Option<&str>, range: usize|
                    call_requires(search_with_range, (c, t, tk, range)),
            decreases limit + 1 - packages@.len(),
        {
            let k = packages.len();
            let step = search_with_range(self, search_term, token, k);
            let (mut page, more_to_come) = match step {
                Ok(x) => x,
                Err(e) => {
                    proof {
                        assert(call_ensures(
                            search_with_range,
                            (self, search_term, token, k),
                            Err::<(PackageResults<PackageIdent>, bool), BuilderError>(e),
                        ));
                    }
                    return Err(e);
                },
            };
            let ghost page0 = page;
            let got = page.data.len();
            packages.append(&mut page.data);
            let total: usize = if page.total_count >= 0 {
                page.total_count as usize
            } else {
                0
            };
            if packages.len() >= limit || !more_to_come || got == 0 {
                packages.truncate(limit);
                proof {
                    assert(call_ensures(
                        search_with_range,
                        (self, search_term, token, k),
                        Ok::<(PackageResults<PackageIdent>, bool), BuilderError>(
                            (page0, more_to_come),
                        ),
                    ));
                }
                return Ok((packages, total));
            }
            if packages.len() > limit {
                packages.truncate(limit);
                proof {
                    assert(call_ensures(
                        search_with_range,
                        (self, search_term, token, k),
                        Ok::<(PackageResults<PackageIdent>, bool), BuilderError>(
                            (page0, more_to_come),
                        ),
                    ));
                }
                return Ok((packages, total));
            }
        }
    }
}


/// The error a response maps to: an unauthorized status points at the
/// access token, anything else carries the status and the body text.
pub fn err_from_response(status: u16, body: &str) -> (r: BuilderError)
    ensures
        r matches BuilderError::ApiError { code, body: b } && code == status && (status == 401
            ==> b@ == "Please check that you have specified a valid Personal Access Token."@)
            && (status != 401 ==> b@ == body@),
{
    if status == 401 {
        BuilderError::ApiError {
            code: status,
            body: String::from_str(
                "Please check that you have specified a valid Personal Access Token.",
            ),
        }
    } else {
        BuilderError::ApiError { code: status, body: body.to_owned() }
    }
}

} // verus!
