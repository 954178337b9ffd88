//! Response statuses and their reason phrases.
use vstd::prelude::*;

verus! {

#[derive(Debug, Clone, Copy, PartialEq, Eq, Structural)]
pub enum Status {
    OK,
    Created,
    BadRequest,
    NotFound,
    ImATeaPot,
    Internal,
}

/// The code and reason phrase written on the status line.
pub open spec fn status_text(s: Status) -> Seq<char> {
    match s {
        Status::OK => "200 OK"@,
        Status::Created => "201 Created"@,
        Status::BadRequest => "400 Bad Request"@,
        Status::NotFound => "404 Not Found"@,
        Status::ImATeaPot => "418 I'm a teapot"@,
        Status::Internal => "500 Internal Server Error"@,
    }
}

impl Status {
    pub fn to_str(&self) -> (r: &'static str)
        ensures
            r@ == status_text(*self),
    {
        match self {
            Status::OK => "200 OK",
            Status::Created => "201 Created",
            Status::BadRequest => "400 Bad Request",
            Status::NotFound => "404 Not Found",
            Status::ImATeaPot => "418 I'm a teapot",
            Status::Internal => "500 Internal Server Error",
        }
    }
}

} // verus!
