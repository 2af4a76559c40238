//! The versions of the HTTP protocol.

use vstd::prelude::*;
use vstd::string::*;

verus! {

/// A version of the HTTP protocol.
#[derive(Clone, Copy, Debug, PartialEq, Eq, Structural)]
pub enum Version {
    /// `HTTP/0.9`
    Http09,
    /// `HTTP/1.0`
    Http10,
    /// `HTTP/1.1`
    Http11,
    /// `HTTP/2.0`
    H2,
    /// `HTTP/3.0`
    H3,
}

/// How a version is written in the first line of a message.
pub open spec fn version_text(version: Version) -> Seq<char> {
    match version {
        Version::Http09 => "HTTP/0.9"@,
        Version::Http10 => "HTTP/1.0"@,
        Version::Http11 => "HTTP/1.1"@,
        Version::H2 => "HTTP/2.0"@,
        Version::H3 => "HTTP/3.0"@,
    }
}

impl Version {
    /// The text of this version.
    pub fn as_str(&self) -> (text: &'static str)
        ensures
            text@ == version_text(*self),
    {
        match self {
            Version::Http09 => "HTTP/0.9",
            Version::Http10 => "HTTP/1.0",
            Version::Http11 => "HTTP/1.1",
            Version::H2 => "HTTP/2.0",
            Version::H3 => "HTTP/3.0",
        }
    }
}

} // verus!
