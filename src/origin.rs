use vstd::prelude::*;

use vstd::utf8::encode_utf8;

verus! {

/// Whether `url::Url::parse` accepts `s` as an absolute URL.
pub uninterp spec fn url_parses(s: Seq<char>) -> bool;

/// The host (`url::Url::host_str`) of the URL that `s` parses to.
pub uninterp spec fn url_host_of(s: Seq<char>) -> Option<Seq<char>>;

/// The port written (`url::Url::port`) in the URL that `s` parses to.
pub uninterp spec fn url_port_of(s: Seq<char>) -> Option<u16>;

/// The decoded query pairs (`url::Url::query_pairs`) of the URL that `s` parses to.
pub uninterp spec fn query_pairs_of(s: Seq<char>) -> Seq<(Seq<char>, Seq<char>)>;

/// The contents of each pair of strings.
pub open spec fn pair_views(v: Seq<(String, String)>) -> Seq<(Seq<char>, Seq<char>)> {
    v.map_values(|p: (String, String)| (p.0@, p.1@))
}

/// Relies on url::Url::parse, then url::Url::host_str and url::Url::port:
/// parsing succeeds exactly on the texts it accepts, and host and port are
/// functions of the text alone.
#[verifier::external_body]
fn url_host_port(s: &str) -> (r: Option<(Option<String>, Option<u16>)>)
    ensures
        r is Some == url_parses(s@),
        match r {
            Some((h, p)) => p == url_port_of(s@) && match h {
                Some(h) => url_host_of(s@) == Some(h@),
                None => url_host_of(s@) is None,
            },
            None => true,
        },
{
    url::Url::parse(s).ok().map(|u| (u.host_str().map(|h| h.to_string()), u.port()))
}

/// Relies on url::Url::parse, then url::Url::query_pairs: the decoded
/// key/value pairs of the query, in order, a function of the text alone.
#[verifier::external_body]
fn url_query_pairs(s: &str) -> (r: Option<Vec<(String, String)>>)
    ensures
        r is Some == url_parses(s@),
        match r {
            Some(v) => pair_views(v@) == query_pairs_of(s@),
            None => true,
        },
{
    url::Url::parse(s).ok().map(
        |u| u.query_pairs().map(|(k, v)| (k.into_owned(), v.into_owned())).collect(),
    )
}

/// Why the origin of a session cannot be reached.
#[derive(Clone, Copy, Debug, PartialEq, Eq, Structural)]
pub enum OriginError {
    /// The RTSP URL does not parse.
    InvalidUrl,
    /// The RTSP URL names no host.
    MissingHost,
}

pub const DEFAULT_RTSP_PORT: u16 = 8554;

/// Where to reach the origin of an RTSP URL: its host, and its port or the
/// RTSP default.
pub fn origin_endpoint(rtsp_url: &str) -> (r: Result<(String, u16), OriginError>)
    ensures
        !url_parses(rtsp_url@) ==> r == Err::<(String, u16), OriginError>(OriginError::InvalidUrl),
        url_parses(rtsp_url@) ==> match url_host_of(rtsp_url@) {
            None => r == Err::<(String, u16), OriginError>(OriginError::MissingHost),
            Some(h) => match r {
                Ok((rh, rp)) => rh@ == h && rp == match url_port_of(rtsp_url@) {
                    Some(p) => p,
                    None => DEFAULT_RTSP_PORT,
                },
                Err(_) => false,
            },
        },
{
    match url_host_port(rtsp_url) {
        Some((host, port)) => endpoint_from(host, port),
        None => Err(OriginError::InvalidUrl),
    }
}

/// The endpoint of a URL with the given host and written port.
pub fn endpoint_from(host: Option<String>, port: Option<u16>) -> (r: Result<(String, u16), OriginError>)
    ensures
        match host {
            None => r == Err::<(String, u16), OriginError>(OriginError::MissingHost),
            Some(h) => match r {
                Ok((rh, rp)) => rh@ == h@ && rp == match port {
                    Some(p) => p,
                    None => DEFAULT_RTSP_PORT,
                },
                Err(_) => false,
            },
        },
{
    match host {
        None => Err(OriginError::MissingHost),
        Some(h) => Ok((h, origin_port(port))),
    }
}

/// The origin's TCP port: the URL's own, else the RTSP default 8554.
pub fn origin_port(explicit: Option<u16>) -> (r: u16)
    ensures
        r == match explicit {
            Some(p) => p,
            None => DEFAULT_RTSP_PORT,
        },
{
    match explicit {
        Some(p) => p,
        None => DEFAULT_RTSP_PORT,
    }
}

/// The query key that carries the origin's URL.
pub open spec fn is_rtsp_key(k: Seq<char>) -> bool {
    encode_utf8(k) == seq![114u8, 116u8, 115u8, 112u8]
}

/// The value of the first pair whose key is `rtsp`.
pub open spec fn first_rtsp_value(ps: Seq<(Seq<char>, Seq<char>)>) -> Option<Seq<char>>
    decreases ps.len(),
{
    if ps.len() == 0 {
        None
    } else if is_rtsp_key(ps[0].0) {
        Some(ps[0].1)
    } else {
        first_rtsp_value(ps.drop_first())
    }
}

/// The value of the first `rtsp` pair, if there is one.
pub fn rtsp_query_value(pairs: &Vec<(String, String)>) -> (r: Option<String>)
    ensures
        match r {
            Some(v) => first_rtsp_value(pair_views(pairs@)) == Some(v@),
            None => first_rtsp_value(pair_views(pairs@)) is None,
        },
{
    let ghost ps = pair_views(pairs@);
    assert(ps.subrange(0, ps.len() as int) =~= ps);
    let mut i: usize = 0;
    while i < pairs.len()
        invariant
            i <= pairs@.len(),
            ps == pair_views(pairs@),
            first_rtsp_value(ps) == first_rtsp_value(ps.subrange(i as int, ps.len() as int)),
        decreases pairs@.len() - i,
    {
        let ghost sub = ps.subrange(i as int, ps.len() as int);
        let k = pairs[i].0.as_str().as_bytes();
        let hit = k.len() == 4 && k[0] == 114u8 && k[1] == 116u8 && k[2] == 115u8 && k[3] == 112u8;
        assert(hit == (k@ =~= seq![114u8, 116u8, 115u8, 112u8]));
        assert(sub[0] == ps[i as int]);
        if hit {
            return Some(pairs[i].1.clone());
        }
        assert(sub.drop_first() =~= ps.subrange(i + 1, ps.len() as int));
        i += 1;
    }
    None
}

/// The origin's URL as the browser gave it: the first `rtsp` query
/// parameter of the URL text `s`; `None` when there is none or `s` does not parse.
pub fn extract_rtsp_url(s: &str) -> (r: Option<String>)
    ensures
        match r {
            Some(v) => url_parses(s@) && first_rtsp_value(query_pairs_of(s@)) == Some(v@),
            None => !url_parses(s@) || first_rtsp_value(query_pairs_of(s@)) is None,
        },
{
    match url_query_pairs(s) {
        Some(pairs) => rtsp_query_value(&pairs),
        None => None,
    }
}

} // verus!
