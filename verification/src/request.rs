//! What a route looks at in a request: its host, its method and its path.
use http::Method;
use reqwest::{Request, Url};
use vstd::prelude::*;

verus! {

/// An HTTP method.
#[verifier::external_type_specification]
#[verifier::external_body]
pub struct ExMethod(Method);

/// An HTTP request that is about to be sent.
#[verifier::external_type_specification]
#[verifier::external_body]
pub struct ExRequest(Request);

/// A parsed URL.
#[verifier::external_type_specification]
#[verifier::external_body]
pub struct ExUrl(Url);

/// The URL of a request, as [`Request::url`] returns it.
pub uninterp spec fn url_of(request: Request) -> Url;

/// The method of a request, as [`Request::method`] returns it.
pub uninterp spec fn method_of(request: Request) -> Method;

/// The host of a URL without its port, as [`Url::host_str`] returns it.
pub uninterp spec fn host_of(url: Url) -> Option<Seq<char>>;

/// The path of a URL without query and fragment, as [`Url::path`] returns it.
pub uninterp spec fn path_of(url: Url) -> Seq<char>;

/// [`Request::url`] hands out the URL that the request holds.
pub assume_specification[ Request::url ](request: &Request) -> (url: &Url)
    ensures
        *url == url_of(*request),
;

/// [`Request::method`] hands out the method that the request holds.
pub assume_specification[ Request::method ](request: &Request) -> (method: &Method)
    ensures
        *method == method_of(*request),
;

/// [`Url::host_str`] returns the host of the URL, or `None` where it has none. The text is a
/// function of the URL alone.
pub assume_specification[ Url::host_str ](url: &Url) -> (host: Option<&str>)
    ensures
        host is Some <==> host_of(*url) is Some,
        host matches Some(text) ==> host_of(*url) == Some(text@),
;

/// [`Url::path`] returns the path of the URL. The text is a function of the URL alone.
pub assume_specification[ Url::path ](url: &Url) -> (path: &str)
    ensures
        path@ == path_of(*url),
;

/// `==` on [`Method`] compares the two methods themselves: it holds exactly for one and the same
/// method.
pub assume_specification[ <Method as PartialEq>::eq ](left: &Method, right: &Method) -> (same: bool)
    ensures
        same == (*left == *right),
;

/// `clone` on [`Method`] returns the same method again.
pub assume_specification[ <Method as Clone>::clone ](method: &Method) -> (copy: Method)
    ensures
        copy == *method,
;

/// The parts of a request that routes are matched against.
#[verifier::ext_equal]
pub ghost struct RequestModel {
    pub host: Option<Seq<char>>,
    pub method: Method,
    pub path: Seq<char>,
}

/// The parts of a request that routes are matched against.
pub open spec fn request_model(request: Request) -> RequestModel {
    RequestModel {
        host: host_of(url_of(request)),
        method: method_of(request),
        path: path_of(url_of(request)),
    }
}

/// Host, method and path of a request, taken out once before any route is looked at.
#[derive(Debug, Clone, Copy)]
pub struct RequestParts<'a> {
    /// Host of the URL, without the port.
    pub host: Option<&'a str>,
    /// HTTP method.
    pub method: &'a Method,
    /// Path of the URL, without query and fragment.
    pub path: &'a str,
}

impl<'a> View for RequestParts<'a> {
    type V = RequestModel;

    open spec fn view(&self) -> RequestModel {
        RequestModel {
            host: match self.host {
                Some(text) => Some(text@),
                None => None,
            },
            method: *self.method,
            path: self.path@,
        }
    }
}

impl<'a> RequestParts<'a> {
    /// Take the parts out of a request.
    pub fn of(request: &'a Request) -> (parts: Self)
        ensures
            parts@ == request_model(*request),
    {
        let url = request.url();
        RequestParts { host: url.host_str(), method: request.method(), path: url.path() }
    }
}

} // verus!
