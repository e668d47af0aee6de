//! Endpoint URLs of a MediaWiki-compatible site.
//!
//! A site is addressed by any URL on its host; the crawler needs the api
//! endpoint (`/api.php`) and the raw-page endpoint (`/index.php`) of that
//! host.  The URL is parsed by the url crate; building the endpoint out of
//! the parsed parts is verified here.  The retrieval loop itself does HTTP
//! and lives with the surrounding tooling.

use crate::util::parse_url_parts;
use crate::util::parsed_url_of;
use crate::util::EndpointError;
use crate::util::UrlParts;
use vstd::prelude::*;
use vstd::string::StringExecFns;

verus! {

/// Builds "scheme://host" plus the given suffix out of parsed URL parts;
/// fails exactly when the URL has no host.
pub fn host_endpoint_from_parts(parts: &UrlParts, suffix: &str) -> (r: Result<
    String,
    EndpointError,
>)
    ensures
        match parts@.host {
            Option::Some(h) => r matches Ok(s) && s@ == parts.scheme@ + "://"@ + h + suffix@,
            Option::None => r matches Err(e) && e == EndpointError::NoHost,
        },
{
    match &parts.host {
        Option::Some(h) => {
            let mut s = parts.scheme.clone();
            s.append("://");
            s.append(h.as_str());
            s.append(suffix);
            proof {
                assert(s@ =~= parts.scheme@ + "://"@ + h@ + suffix@);
            }
            Ok(s)
        },
        Option::None => Err(EndpointError::NoHost),
    }
}

/// Normalises any URL on a wiki's host into that host's api endpoint,
/// `scheme://host/api.php`.
pub fn ensure_endpoint_api_url(url: &str) -> (r: Result<String, EndpointError>)
    ensures
        match parsed_url_of(url@) {
            Option::Some(p) => match p.host {
                Option::Some(h) => r matches Ok(s) && s@ == p.scheme + "://"@ + h + "/api.php"@,
                Option::None => r matches Err(e) && e == EndpointError::NoHost,
            },
            Option::None => r matches Err(e) && e == EndpointError::Malformed,
        },
{
    match parse_url_parts(url) {
        Option::Some(parts) => host_endpoint_from_parts(&parts, "/api.php"),
        Option::None => Err(EndpointError::Malformed),
    }
}

/// Normalises any URL on a wiki's host into that host's raw-page endpoint,
/// `scheme://host/index.php`.
pub fn ensure_endpoint_index_url(url: &str) -> (r: Result<String, EndpointError>)
    ensures
        match parsed_url_of(url@) {
            Option::Some(p) => match p.host {
                Option::Some(h) => r matches Ok(s) && s@ == p.scheme + "://"@ + h
                    + "/index.php"@,
                Option::None => r matches Err(e) && e == EndpointError::NoHost,
            },
            Option::None => r matches Err(e) && e == EndpointError::Malformed,
        },
{
    match parse_url_parts(url) {
        Option::Some(parts) => host_endpoint_from_parts(&parts, "/index.php"),
        Option::None => Err(EndpointError::Malformed),
    }
}

} // verus!
