//! Application-level error values.
//!
//! Every failure the engine can surface is an [`AppError`]: a kind tag
//! plus a human-readable message. The kinds distinguish store failures,
//! malformed result rows, and unparsable annotation scores; the
//! surrounding application maps each kind to a response code.

use vstd::prelude::*;
use vstd::string::*;

verus! {

/// The kind of an application error. `Ok` stands for "no error" and is
/// the code attached to every successful response envelope.
#[derive(Clone, Copy, Debug, PartialEq, Eq, Structural)]
pub enum AppErrorType {
    Success,
    DefaultErr,
    Neo4jErr,
    ArgmentErr,
    MalformedResult,
    ScoreParseErr,
}

/// Numeric code of an error kind, as reported in response envelopes.
pub open spec fn type_code(t: AppErrorType) -> i32 {
    match t {
        AppErrorType::Success => 0,
        AppErrorType::DefaultErr => 1,
        AppErrorType::Neo4jErr => 2,
        AppErrorType::ArgmentErr => 3,
        AppErrorType::MalformedResult => 4,
        AppErrorType::ScoreParseErr => 5,
    }
}

/// Display label of an error kind, used as the prefix of the full
/// error message.
pub open spec fn type_label(t: AppErrorType) -> Seq<char> {
    match t {
        AppErrorType::Success => "Ok"@,
        AppErrorType::DefaultErr => "DefaultErr"@,
        AppErrorType::Neo4jErr => "Neo4jErr"@,
        AppErrorType::ArgmentErr => "ArgmentErr"@,
        AppErrorType::MalformedResult => "MalformedResult"@,
        AppErrorType::ScoreParseErr => "ScoreParseErr"@,
    }
}

/// An error carried to the request boundary: a kind plus a detail
/// message.
#[derive(Debug)]
pub struct AppError {
    errortype: AppErrorType,
    msg: String,
}

impl AppError {
    /// The kind this error was built with.
    pub closed spec fn spec_kind(self) -> AppErrorType {
        self.errortype
    }

    /// The detail message this error was built with.
    pub closed spec fn spec_msg(self) -> Seq<char> {
        self.msg@
    }

    pub fn new(errortype: AppErrorType, msg: String) -> (r: Self)
        ensures
            r.spec_kind() == errortype,
            r.spec_msg() == msg@,
    {
        Self { errortype, msg }
    }

    /// The error kind, for dispatching on the failure cause.
    pub fn kind(&self) -> (r: AppErrorType)
        ensures
            r == self.spec_kind(),
    {
        self.errortype
    }

    /// Numeric response code of this error.
    pub fn code(&self) -> (r: i32)
        ensures
            r == type_code(self.spec_kind()),
    {
        match self.errortype {
            AppErrorType::Success => 0,
            AppErrorType::DefaultErr => 1,
            AppErrorType::Neo4jErr => 2,
            AppErrorType::ArgmentErr => 3,
            AppErrorType::MalformedResult => 4,
            AppErrorType::ScoreParseErr => 5,
        }
    }

    /// Full message: the kind's label, a colon, then the detail message.
    pub fn msg(&self) -> (r: String)
        ensures
            r@ == type_label(self.spec_kind()) + ":"@ + self.spec_msg(),
    {
        let label = match self.errortype {
            AppErrorType::Success => "Ok",
            AppErrorType::DefaultErr => "DefaultErr",
            AppErrorType::Neo4jErr => "Neo4jErr",
            AppErrorType::ArgmentErr => "ArgmentErr",
            AppErrorType::MalformedResult => "MalformedResult",
            AppErrorType::ScoreParseErr => "ScoreParseErr",
        };
        let r = String::from_str(label).concat(":").concat(self.msg.as_str());
        proof {
            assert(r@ == type_label(self.spec_kind()) + ":"@ + self.spec_msg());
        }
        r
    }
}

} // verus!
