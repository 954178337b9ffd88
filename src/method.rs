//! The request methods this server understands.
use vstd::prelude::*;

use crate::request::ParseError;
use crate::text::same_text;

verus! {

#[derive(Debug, Clone, Copy, PartialEq, Eq, Structural)]
pub enum Method {
    GET,
    POST,
    PATCH,
    DELETE,
}

/// The token of a method on the wire; also its symbolic name.
pub open spec fn method_name(m: Method) -> Seq<char> {
    match m {
        Method::GET => "GET"@,
        Method::POST => "POST"@,
        Method::PATCH => "PATCH"@,
        Method::DELETE => "DELETE"@,
    }
}

/// The method a token names, if any.
pub open spec fn method_of(s: Seq<char>) -> Option<Method> {
    if s == "GET"@ {
        Some(Method::GET)
    } else if s == "POST"@ {
        Some(Method::POST)
    } else if s == "PATCH"@ {
        Some(Method::PATCH)
    } else if s == "DELETE"@ {
        Some(Method::DELETE)
    } else {
        None
    }
}

impl Method {
    pub fn to_str(&self) -> (r: &'static str)
        ensures
            r@ == method_name(*self),
    {
        match self {
            Method::GET => "GET",
            Method::POST => "POST",
            Method::PATCH => "PATCH",
            Method::DELETE => "DELETE",
        }
    }

    /// Reads a method token; any other token is `InvalidMethod`.
    pub fn parse(input: &str) -> (r: Result<Method, ParseError>)
        ensures
            r is Ok <==> method_of(input@) is Some,
            r is Ok ==> r->Ok_0 == method_of(input@)->Some_0,
            r is Err ==> r->Err_0 == ParseError::InvalidMethod,
    {
        if same_text(input, "GET") {
            Ok(Method::GET)
        } else if same_text(input, "POST") {
            Ok(Method::POST)
        } else if same_text(input, "PATCH") {
            Ok(Method::PATCH)
        } else if same_text(input, "DELETE") {
            Ok(Method::DELETE)
        } else {
            Err(ParseError::InvalidMethod)
        }
    }
}

impl std::str::FromStr for Method {
    type Err = ParseError;

    fn from_str(input: &str) -> Result<Method, ParseError> {
        Method::parse(input)
    }
}

/// Distinct methods have distinct names.
pub proof fn lemma_method_name_injective(a: Method, b: Method)
    ensures
        method_name(a) == method_name(b) <==> a == b,
        method_of(method_name(a)) == Some(a),
{
    reveal_strlit("GET");
    reveal_strlit("POST");
    reveal_strlit("PATCH");
    reveal_strlit("DELETE");
    if a != b {
        assert(method_name(a).len() != method_name(b).len() || method_name(a)[0] != method_name(b)[0]
            || method_name(a)[1] != method_name(b)[1]);
    }
}

} // verus!
