//! URL handling around the wiki endpoint.
//!
//! The crawler is pointed at a wiki by URL; these helpers normalise that URL
//! into the api endpoint the wiki answers on.  The URL itself is parsed by
//! the url crate; the decisions on the parsed parts are verified here.

use crate::strings::str_eq;
use vstd::prelude::*;
use vstd::string::StringExecFns;

verus! {

/// What the endpoint computations read out of a parsed URL: its scheme, its
/// host if it has one, and its path.
#[derive(Debug, Clone, PartialEq, Eq)]
pub struct UrlParts {
    pub scheme: String,
    pub host: Option<String>,
    pub path: String,
}

/// Mathematical image of [`UrlParts`].
#[verifier::ext_equal]
pub ghost struct UrlPartsModel {
    pub scheme: Seq<char>,
    pub host: Option<Seq<char>>,
    pub path: Seq<char>,
}

impl View for UrlParts {
    type V = UrlPartsModel;

    open spec fn view(&self) -> UrlPartsModel {
        UrlPartsModel {
            scheme: self.scheme@,
            host: match self.host {
                Option::Some(h) => Option::Some(h@),
                Option::None => Option::None,
            },
            path: self.path@,
        }
    }
}

/// What the URL parser makes of a string, reduced to the parts read here;
/// `None` when the string is not a valid URL.  Parsing is deterministic, a
/// function of the input string alone, so its result can be named without
/// being described.
pub uninterp spec fn parsed_url_of(s: Seq<char>) -> Option<UrlPartsModel>;

/// Why an endpoint URL could not be formed.
#[derive(Debug, Clone, Copy, PartialEq, Eq, Structural)]
pub enum EndpointError {
    /// The input is not a valid URL.
    Malformed,
    /// The URL has no host to build an endpoint on.
    NoHost,
    /// The URL's path fits no known endpoint shape.
    UnexpectedPath,
}

/// Relies on url::Url::parse: parsing is a deterministic function of the
/// input string alone, and `scheme()`, `host_str()` and `path()` are read
/// out of the parsed value.
#[verifier::external_body]
pub(crate) fn parse_url_parts(s: &str) -> (r: Option<UrlParts>)
    ensures
        match r {
            Option::Some(p) => parsed_url_of(s@) == Option::Some(p@),
            Option::None => parsed_url_of(s@) is None,
        },
{
    match url::Url::parse(s) {
        Ok(u) => Some(
            UrlParts {
                scheme: u.scheme().to_string(),
                host: u.host_str().map(|h| h.to_string()),
                path: u.path().to_string(),
            },
        ),
        Err(_) => None,
    }
}

/// Builds the endpoint URL from the parts of an already-parsed input URL:
/// the input itself when its path is "/api.php" already, the input with
/// "/api.php" appended when its path is the bare "/", an error otherwise.
pub fn endpoint_url_from_parts(url: &str, parts: &UrlParts) -> (r: Result<String, EndpointError>)
    ensures
        ({
            let p = parts.path@;
            if p == "/api.php"@ {
                r matches Ok(s) && s@ == url@
            } else if p == "/"@ {
                r matches Ok(s) && s@ == url@ + "/api.php"@
            } else {
                r matches Err(e) && e == EndpointError::UnexpectedPath
            }
        }),
{
    if str_eq(parts.path.as_str(), "/api.php") {
        Ok(url.to_owned())
    } else if str_eq(parts.path.as_str(), "/") {
        let mut s = url.to_owned();
        s.append("/api.php");
        Ok(s)
    } else {
        Err(EndpointError::UnexpectedPath)
    }
}

/// Normalises a URL into the api endpoint: a URL already pointing at
/// "/api.php" is kept, a bare host URL gets "/api.php" appended, and
/// anything else is rejected.
pub fn ensure_endpoint_url(url: &str) -> (r: Result<String, EndpointError>)
    ensures
        match parsed_url_of(url@) {
            Option::Some(p) => {
                if p.path == "/api.php"@ {
                    r matches Ok(s) && s@ == url@
                } else if p.path == "/"@ {
                    r matches Ok(s) && s@ == url@ + "/api.php"@
                } else {
                    r matches Err(e) && e == EndpointError::UnexpectedPath
                }
            },
            Option::None => r matches Err(e) && e == EndpointError::Malformed,
        },
{
    match parse_url_parts(url) {
        Option::Some(parts) => endpoint_url_from_parts(url, &parts),
        Option::None => Err(EndpointError::Malformed),
    }
}

} // verus!
