//! URLs accepted as input sources, output destinations and mixin sources.
use vstd::prelude::*;
use crate::text::{chars_of, has_char, str_eq, contains_char_from};

verus! {

/// Whether `s` parses as an absolute URL.
pub uninterp spec fn url_parses(s: Seq<char>) -> bool;

/// The serialization of the URL parsed from `s`.
pub uninterp spec fn url_href(s: Seq<char>) -> Seq<char>;

/// The lower-cased scheme of the URL parsed from `s`.
pub uninterp spec fn url_scheme(s: Seq<char>) -> Seq<char>;

/// Whether the URL parsed from `s` has a host.
pub uninterp spec fn url_has_host(s: Seq<char>) -> bool;

/// The path of the URL parsed from `s`.
pub uninterp spec fn url_path(s: Seq<char>) -> Seq<char>;

/// The host of the URL parsed from `s`, if it has one.
pub uninterp spec fn url_host(s: Seq<char>) -> Option<Seq<char>>;

/// The explicit port of the URL parsed from `s`, if it has one.
pub uninterp spec fn url_port(s: Seq<char>) -> Option<u16>;

/// The decoded name and value pairs of the query of the URL parsed from `s`,
/// in order.
pub uninterp spec fn url_query(s: Seq<char>) -> Seq<(Seq<char>, Seq<char>)>;

/// Views of name and value pairs.
pub open spec fn pairs_view(q: Seq<(String, String)>) -> Seq<(Seq<char>, Seq<char>)> {
    q.map_values(|p: (String, String)| (p.0@, p.1@))
}

/// View of an optional string.
pub open spec fn opt_view(o: Option<String>) -> Option<Seq<char>> {
    match o {
        Some(x) => Some(x@),
        None => None,
    }
}

/// The parts of a parsed URL that the configuration rules read.
#[derive(Clone, Debug)]
pub struct UrlParts {
    /// Full serialization of the URL.
    pub href: String,
    /// Lower-cased scheme, without the `:` delimiter.
    pub scheme: String,
    /// Whether the URL has a host.
    pub has_host: bool,
    /// Path of the URL.
    pub path: String,
    /// Host of the URL, if it has one.
    pub host: Option<String>,
    /// Explicit port of the URL, if it has one.
    pub port: Option<u16>,
    /// Decoded name and value pairs of the query, in order.
    pub query: Vec<(String, String)>,
}

/// Relies on `url::Url::parse` (whether the text is an absolute URL), and on
/// `Url::as_str`, `Url::scheme`, `Url::has_host`, `Url::path`,
/// `Url::host_str`, `Url::port` and `Url::query_pairs` of the parsed value:
/// each depends on the text alone.
#[verifier::external_body]
fn parse_url_parts(s: &str) -> (r: Option<UrlParts>)
    ensures
        r is Some <==> url_parses(s@),
        r matches Some(u) ==> {
            &&& u.href@ == url_href(s@)
            &&& u.scheme@ == url_scheme(s@)
            &&& u.has_host == url_has_host(s@)
            &&& u.path@ == url_path(s@)
            &&& opt_view(u.host) == url_host(s@)
            &&& u.port == url_port(s@)
            &&& pairs_view(u.query@) == url_query(s@)
        },
{
    match url::Url::parse(s) {
        Ok(u) => Some(UrlParts {
            href: u.as_str().to_owned(),
            scheme: u.scheme().to_owned(),
            has_host: u.has_host(),
            path: u.path().to_owned(),
            host: u.host_str().map(|h| h.to_owned()),
            port: u.port(),
            query: u.query_pairs().into_owned().collect(),
        }),
        Err(_) => None,
    }
}

impl UrlParts {
    /// Parses an absolute URL out of the given text.
    pub fn parse(s: &str) -> (r: Option<UrlParts>)
        ensures
            r is Some <==> url_parses(s@),
            r matches Some(u) ==> {
                &&& u.href@ == url_href(s@)
                &&& u.scheme@ == url_scheme(s@)
                &&& u.has_host == url_has_host(s@)
                &&& u.path@ == url_path(s@)
                &&& opt_view(u.host) == url_host(s@)
                &&& u.port == url_port(s@)
                &&& pairs_view(u.query@) == url_query(s@)
            },
    {
        parse_url_parts(s)
    }

    /// Whether the scheme of this URL is `s`.
    pub fn scheme_is(&self, s: &str) -> (r: bool)
        ensures
            r == (self.scheme@ == s@),
    {
        str_eq(self.scheme.as_str(), s)
    }

    /// Whether this URL has the same serialization as `other`.
    pub fn same_as(&self, other: &UrlParts) -> (r: bool)
        ensures
            r == (self.href@ == other.href@),
    {
        self.href == other.href
    }
}

/// Whether the last path segment of `p` ends with `.` and the extension `e`
/// (made of neither `.` nor `/`), with something before that dot.
pub open spec fn has_extension(p: Seq<char>, e: Seq<char>) -> bool {
    &&& p.len() >= e.len() + 2
    &&& p.subrange(p.len() - e.len(), p.len() as int) == e
    &&& p[p.len() - e.len() - 1] == '.'
    &&& p[p.len() - e.len() - 2] != '/'
}

/// Whether `p` names a file right under the root directory: `/` followed by a
/// name without `/`.
pub open spec fn is_root_file(p: Seq<char>) -> bool {
    &&& p.len() >= 2
    &&& p[0] == '/'
    &&& !has_char(p.subrange(1, p.len() as int), '/')
}

fn ends_with_extension(p: &Vec<char>, e: &str) -> (r: bool)
    ensures
        r == has_extension(p@, e@),
{
    let ec = chars_of(e);
    let n = p.len();
    let m = ec.len();
    if n < 2 || n - 2 < m {
        return false;
    }
    let base = n - m;
    let mut i: usize = 0;
    while i < m
        invariant
            n == p@.len(),
            m == ec@.len(),
            ec@ == e@,
            base == n - m,
            n >= m + 2,
            i <= m,
            forall|j: int| 0 <= j < i ==> p@[base + j] == ec@[j],
        decreases m - i,
    {
        if p[base + i] != ec[i] {
            assert(p@.subrange(base as int, n as int)[i as int] != e@[i as int]);
            return false;
        }
        i = i + 1;
    }
    assert(p@.subrange(base as int, n as int) =~= e@);
    p[base - 1] == '.' && p[base - 2] != '/'
}

/// Whether the last path segment of `p` has the extension `e`.
pub(crate) fn ends_with_extension_pub(p: &Vec<char>, e: &str) -> (r: bool)
    ensures
        r == has_extension(p@, e@),
{
    ends_with_extension(p, e)
}

fn is_root_file_path(p: &Vec<char>) -> (r: bool)
    ensures
        r == is_root_file(p@),
{
    if p.len() < 2 || p[0] != '/' {
        return false;
    }
    !contains_char_from(p, 1, '/')
}

/// Whether `u` is accepted as the URL an input pulls a live stream from: an
/// RTMP(S) URL with a host, or an HTTP(S) URL with a host and a `.m3u8` path.
pub open spec fn input_src_valid(u: UrlParts) -> bool {
    ||| (u.scheme@ == "rtmp"@ || u.scheme@ == "rtmps"@) && u.has_host
    ||| (u.scheme@ == "http"@ || u.scheme@ == "https"@) && u.has_host && has_extension(u.path@, "m3u8"@)
}

/// Whether `u` is accepted as an output destination: an RTMP(S), SRT or
/// Icecast URL with a host, or a `file:///<name>.(flv|wav|mp3)` URL.
pub open spec fn output_dst_valid(u: UrlParts) -> bool {
    ||| (u.scheme@ == "icecast"@ || u.scheme@ == "rtmp"@ || u.scheme@ == "rtmps"@ || u.scheme@ == "srt"@) && u.has_host
    ||| u.scheme@ == "file"@ && !u.has_host && is_root_file(u.path@) && (
        has_extension(u.path@, "flv"@) || has_extension(u.path@, "wav"@) || has_extension(u.path@, "mp3"@))
}

/// Whether `u` is accepted as a mixin source: a voice-chat `ts://` URL with a
/// host, or an HTTP(S) URL with a host and a `.mp3` path.
pub open spec fn mixin_src_valid(u: UrlParts) -> bool {
    &&& u.has_host
    &&& (u.scheme@ == "ts"@ || (u.scheme@ == "http"@ || u.scheme@ == "https"@) && has_extension(u.path@, "mp3"@))
}

/// URL that an input pulls a live stream from.
#[derive(Clone, Debug)]
pub struct InputSrcUrl(pub(crate) UrlParts);

/// URL of an output destination.
#[derive(Clone, Debug)]
pub struct OutputDstUrl(pub(crate) UrlParts);

/// URL of a mixin source.
#[derive(Clone, Debug)]
pub struct MixinSrcUrl(pub(crate) UrlParts);

impl InputSrcUrl {
    /// The URL held.
    pub closed spec fn url(self) -> UrlParts {
        self.0
    }

    /// A copy of this URL with the same parts.
    pub fn copied(&self) -> (r: Self)
        ensures
            crate::state::same_url(r.url(), self.url()),
            r.url().host == self.url().host,
            r.url().port == self.url().port,
    {
        InputSrcUrl(crate::state::copy_url(&self.0))
    }

    /// Validates the given URL to represent a valid input source.
    pub fn validate(url: &UrlParts) -> (r: bool)
        ensures
            r == input_src_valid(*url),
    {
        if url.scheme_is("rtmp") || url.scheme_is("rtmps") {
            url.has_host
        } else if url.scheme_is("http") || url.scheme_is("https") {
            let p = chars_of(url.path.as_str());
            url.has_host && ends_with_extension(&p, "m3u8")
        } else {
            false
        }
    }

    /// Creates an input source URL, or hands the URL back if it is not one.
    pub fn new(url: UrlParts) -> (r: Result<Self, UrlParts>)
        ensures
            r is Ok <==> input_src_valid(url),
            r matches Ok(v) ==> v.url() == url,
            r matches Err(u) ==> u == url,
    {
        if Self::validate(&url) {
            Ok(InputSrcUrl(url))
        } else {
            Err(url)
        }
    }

    /// Serialization of the URL.
    pub fn as_str(&self) -> (r: &str)
        ensures
            r@ == self.url().href@,
    {
        self.0.href.as_str()
    }

    /// The URL held.
    pub fn parts(&self) -> (r: &UrlParts)
        ensures
            *r == self.url(),
    {
        &self.0
    }
}

impl OutputDstUrl {
    /// The URL held.
    pub closed spec fn url(self) -> UrlParts {
        self.0
    }

    /// A copy of this URL with the same parts.
    pub fn copied(&self) -> (r: Self)
        ensures
            crate::state::same_url(r.url(), self.url()),
            r.url().host == self.url().host,
            r.url().port == self.url().port,
    {
        OutputDstUrl(crate::state::copy_url(&self.0))
    }

    /// Validates the given URL to represent a valid output destination.
    pub fn validate(url: &UrlParts) -> (r: bool)
        ensures
            r == output_dst_valid(*url),
    {
        proof {
            reveal_strlit("icecast");
            reveal_strlit("rtmp");
            reveal_strlit("rtmps");
            reveal_strlit("srt");
            reveal_strlit("file");
            assert("file"@[0] != "icecast"@[0]);
            assert("file"@[0] != "rtmp"@[0]);
            assert("file"@[0] != "rtmps"@[0]);
            assert("file"@[0] != "srt"@[0]);
        }
        if url.scheme_is("icecast") || url.scheme_is("rtmp") || url.scheme_is("rtmps") || url.scheme_is("srt") {
            url.has_host
        } else if url.scheme_is("file") {
            let p = chars_of(url.path.as_str());
            !url.has_host && is_root_file_path(&p) && (ends_with_extension(&p, "flv")
                || ends_with_extension(&p, "wav") || ends_with_extension(&p, "mp3"))
        } else {
            false
        }
    }

    /// Creates an output destination URL, or hands the URL back if it is not
    /// one.
    pub fn new(url: UrlParts) -> (r: Result<Self, UrlParts>)
        ensures
            r is Ok <==> output_dst_valid(url),
            r matches Ok(v) ==> v.url() == url,
            r matches Err(u) ==> u == url,
    {
        if Self::validate(&url) {
            Ok(OutputDstUrl(url))
        } else {
            Err(url)
        }
    }

    /// Serialization of the URL.
    pub fn as_str(&self) -> (r: &str)
        ensures
            r@ == self.url().href@,
    {
        self.0.href.as_str()
    }

    /// The URL held.
    pub fn parts(&self) -> (r: &UrlParts)
        ensures
            *r == self.url(),
    {
        &self.0
    }
}

impl MixinSrcUrl {
    /// The URL held.
    pub closed spec fn url(self) -> UrlParts {
        self.0
    }

    /// A copy of this URL with the same parts.
    pub fn copied(&self) -> (r: Self)
        ensures
            crate::state::same_url(r.url(), self.url()),
            r.url().host == self.url().host,
            r.url().port == self.url().port,
    {
        MixinSrcUrl(crate::state::copy_url(&self.0))
    }

    /// Validates the given URL to represent a valid mixin source.
    pub fn validate(url: &UrlParts) -> (r: bool)
        ensures
            r == mixin_src_valid(*url),
    {
        if !url.has_host {
            false
        } else if url.scheme_is("ts") {
            true
        } else if url.scheme_is("http") || url.scheme_is("https") {
            let p = chars_of(url.path.as_str());
            ends_with_extension(&p, "mp3")
        } else {
            false
        }
    }

    /// Creates a mixin source URL, or hands the URL back if it is not one.
    pub fn new(url: UrlParts) -> (r: Result<Self, UrlParts>)
        ensures
            r is Ok <==> mixin_src_valid(url),
            r matches Ok(v) ==> v.url() == url,
            r matches Err(u) ==> u == url,
    {
        if Self::validate(&url) {
            Ok(MixinSrcUrl(url))
        } else {
            Err(url)
        }
    }

    /// Serialization of the URL.
    pub fn as_str(&self) -> (r: &str)
        ensures
            r@ == self.url().href@,
    {
        self.0.href.as_str()
    }

    /// The URL held.
    pub fn parts(&self) -> (r: &UrlParts)
        ensures
            *r == self.url(),
    {
        &self.0
    }

    /// Whether this is a voice-chat (`ts://`) source.
    pub fn is_voice_chat(&self) -> (r: bool)
        ensures
            r == (self.url().scheme@ == "ts"@),
    {
        self.0.scheme_is("ts")
    }
}

} // verus!
