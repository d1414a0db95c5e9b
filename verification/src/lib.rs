use vstd::prelude::*;

pub mod account;
pub mod cache;
pub mod color;
pub mod config;
pub mod fetch;
pub mod graphql;
pub mod model;
pub mod sort;
pub mod weight;

verus! {

/// Number of nano-star units that make up one star.
///
/// Star weights are held as exact integer counts of nano-stars, so the
/// weighted-distribution arithmetic can be stated and proved without
/// rounding surprises.
pub const SCALE: u64 = 1_000_000_000;

/// A pipeline failure: every error aborts the current run and is never cached.
pub enum Error {
    /// Encoding or decoding of an upstream payload failed.
    Serializer(String),
    /// The network layer failed before any status was received.
    Http(String),
    /// The upstream answered with a non-success status; holds the response body.
    HttpStatus(String),
}

impl Error {
    /// A readable description: the error's kind, then its payload.
    pub fn message(&self) -> (res: String)
        ensures
            ({
                match self {
                    Error::Serializer(s) => res@ == "Serializer error: "@ + s@,
                    Error::Http(s) => res@ == "HTTP error: "@ + s@,
                    Error::HttpStatus(s) => res@ == "HTTP status error: "@ + s@,
                }
            }),
    {
        match self {
            Error::Serializer(s) => {
                let mut m = String::new();
                m.append("Serializer error: ");
                m.append(s.as_str());
                assert(m@ =~= "Serializer error: "@ + s@);
                m
            },
            Error::Http(s) => {
                let mut m = String::new();
                m.append("HTTP error: ");
                m.append(s.as_str());
                assert(m@ =~= "HTTP error: "@ + s@);
                m
            },
            Error::HttpStatus(s) => {
                let mut m = String::new();
                m.append("HTTP status error: ");
                m.append(s.as_str());
                assert(m@ =~= "HTTP status error: "@ + s@);
                m
            },
        }
    }
}

} // verus!
