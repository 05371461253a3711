use vstd::prelude::*;
use vstd::string::StringExecFns;

use crate::text::str_equals;

verus! {

/// The request methods that the server tells apart.
#[derive(Clone, Copy, Debug, PartialEq, Eq, Structural)]
pub enum Method {
    Get,
    Post,
    Other,
}

/// What the server answers a request with.
#[derive(Clone, Copy, Debug, PartialEq, Eq, Structural)]
pub enum Route {
    /// Run the search whose query is the request body, answer with JSON.
    Search,
    /// The search page.
    Index,
    /// The search page's script.
    Script,
    /// The not-found page.
    NotFound,
}

/// The route of a request with `method` and `url`.
pub open spec fn route_of(method: Method, url: Seq<char>) -> Route {
    if method == Method::Post && url == "/api/search"@ {
        Route::Search
    } else if method == Method::Get && (url == "/"@ || url == "/index.html"@) {
        Route::Index
    } else if method == Method::Get && url == "/index.js"@ {
        Route::Script
    } else {
        Route::NotFound
    }
}

/// Picks the route of a request.
pub fn route(method: Method, url: &str) -> (r: Route)
    ensures
        r == route_of(method, url@),
{
    match method {
        Method::Post => {
            if str_equals(url, "/api/search") {
                Route::Search
            } else {
                Route::NotFound
            }
        },
        Method::Get => {
            if str_equals(url, "/") || str_equals(url, "/index.html") {
                Route::Index
            } else if str_equals(url, "/index.js") {
                Route::Script
            } else {
                Route::NotFound
            }
        },
        Method::Other => Route::NotFound,
    }
}

impl Route {
    /// The HTTP status of the answer.
    pub open spec fn spec_status(self) -> u32 {
        match self {
            Route::NotFound => 404,
            _ => 200,
        }
    }

    /// The content type of the answer.
    pub open spec fn spec_content_type(self) -> Seq<char> {
        match self {
            Route::Search => "application/json"@,
            Route::Script => "text/javascript; charset=utf-8"@,
            _ => "text/html; charset=utf-8"@,
        }
    }

    /// The HTTP status of the answer.
    pub fn status(&self) -> (code: u32)
        ensures
            code == self.spec_status(),
    {
        match self {
            Route::NotFound => 404,
            _ => 200,
        }
    }

    /// The content type of the answer.
    pub fn content_type(&self) -> (t: String)
        ensures
            t@ == self.spec_content_type(),
    {
        match self {
            Route::Search => String::from_str("application/json"),
            Route::Script => String::from_str("text/javascript; charset=utf-8"),
            _ => String::from_str("text/html; charset=utf-8"),
        }
    }
}

} // verus!
