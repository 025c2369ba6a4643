//! The core error hierarchy and the error value that crosses the UI boundary.
use vstd::prelude::*;
use crate::text::{chars_of, string_of, extend_chars};

verus! {

/// The kind of an I/O error (the kinds of `std::io::ErrorKind` that the vault tells
/// apart; every other kind is `Other`).
#[derive(Debug, Clone, Copy, PartialEq, Eq, Structural)]
pub enum IoKind {
    NotFound,
    PermissionDenied,
    AlreadyExists,
    InvalidInput,
    InvalidData,
    UnexpectedEof,
    Other,
}

/// Errors of the core domain. `Io` carries the kind and the text of the underlying I/O
/// error.
#[derive(Debug)]
pub enum NodaError {
    Io(IoKind, String),
    Database(String),
    Vault(String),
    Sync(String),
    Frontmatter(String),
    Search(String),
    Watch(String),
    PathTraversal(String),
    DuplicateFilename(String),
    NotFound(String),
}

/// The machine-readable code of each error kind.
pub open spec fn code_of(e: NodaError) -> Seq<char> {
    match e {
        NodaError::Io(_, _) => seq!['I', 'O', '_', 'E', 'R', 'R', 'O', 'R'],
        NodaError::Database(_) => seq!['D', 'A', 'T', 'A', 'B', 'A', 'S', 'E', '_', 'E', 'R', 'R', 'O', 'R'],
        NodaError::Vault(_) => seq!['V', 'A', 'U', 'L', 'T', '_', 'E', 'R', 'R', 'O', 'R'],
        NodaError::Sync(_) => seq!['S', 'Y', 'N', 'C', '_', 'E', 'R', 'R', 'O', 'R'],
        NodaError::Frontmatter(_) => seq!['F', 'R', 'O', 'N', 'T', 'M', 'A', 'T', 'T', 'E', 'R', '_', 'E', 'R', 'R', 'O', 'R'],
        NodaError::Search(_) => seq!['S', 'E', 'A', 'R', 'C', 'H', '_', 'E', 'R', 'R', 'O', 'R'],
        NodaError::Watch(_) => seq!['W', 'A', 'T', 'C', 'H', '_', 'E', 'R', 'R', 'O', 'R'],
        NodaError::PathTraversal(_) => seq!['P', 'A', 'T', 'H', '_', 'T', 'R', 'A', 'V', 'E', 'R', 'S', 'A', 'L'],
        NodaError::DuplicateFilename(_) => seq!['D', 'U', 'P', 'L', 'I', 'C', 'A', 'T', 'E', '_', 'F', 'I', 'L', 'E', 'N', 'A', 'M', 'E'],
        NodaError::NotFound(_) => seq!['N', 'O', 'T', '_', 'F', 'O', 'U', 'N', 'D'],
    }
}

/// The human-readable prefix of each error kind (what precedes the detail text).
pub open spec fn prefix_of(e: NodaError) -> Seq<char> {
    match e {
        NodaError::Io(_, _) => seq!['I', '/', 'O', ' ', 'e', 'r', 'r', 'o', 'r', ':', ' '],
        NodaError::Database(_) => seq!['D', 'a', 't', 'a', 'b', 'a', 's', 'e', ' ', 'e', 'r', 'r', 'o', 'r', ':', ' '],
        NodaError::Vault(_) => seq!['V', 'a', 'u', 'l', 't', ' ', 'e', 'r', 'r', 'o', 'r', ':', ' '],
        NodaError::Sync(_) => seq!['S', 'y', 'n', 'c', ' ', 'e', 'r', 'r', 'o', 'r', ':', ' '],
        NodaError::Frontmatter(_) => seq!['F', 'r', 'o', 'n', 't', 'm', 'a', 't', 't', 'e', 'r', ' ', 'e', 'r', 'r', 'o', 'r', ':', ' '],
        NodaError::Search(_) => seq!['S', 'e', 'a', 'r', 'c', 'h', ' ', 'e', 'r', 'r', 'o', 'r', ':', ' '],
        NodaError::Watch(_) => seq!['W', 'a', 't', 'c', 'h', ' ', 'e', 'r', 'r', 'o', 'r', ':', ' '],
        NodaError::PathTraversal(_) => seq!['P', 'a', 't', 'h', ' ', 't', 'r', 'a', 'v', 'e', 'r', 's', 'a', 'l', ' ', 'd', 'e', 't', 'e', 'c', 't', 'e', 'd', ':', ' '],
        NodaError::DuplicateFilename(_) => seq!['D', 'u', 'p', 'l', 'i', 'c', 'a', 't', 'e', ' ', 'f', 'i', 'l', 'e', 'n', 'a', 'm', 'e', ':', ' '],
        NodaError::NotFound(_) => seq!['R', 'e', 's', 'o', 'u', 'r', 'c', 'e', ' ', 'n', 'o', 't', ' ', 'f', 'o', 'u', 'n', 'd', ':', ' '],
    }
}

/// The detail text an error carries.
pub open spec fn detail_of(e: NodaError) -> Seq<char> {
    match e {
        NodaError::Io(_, m) => m@,
        NodaError::Database(m) => m@,
        NodaError::Vault(m) => m@,
        NodaError::Sync(m) => m@,
        NodaError::Frontmatter(m) => m@,
        NodaError::Search(m) => m@,
        NodaError::Watch(m) => m@,
        NodaError::PathTraversal(m) => m@,
        NodaError::DuplicateFilename(m) => m@,
        NodaError::NotFound(m) => m@,
    }
}

/// The full display text of an error: its kind's prefix followed by its detail.
pub open spec fn message_of(e: NodaError) -> Seq<char> {
    prefix_of(e) + detail_of(e)
}

impl NodaError {
    /// The machine-readable code of this error.
    pub fn code(&self) -> (r: String)
        ensures
            r@ == code_of(*self),
    {
        let c: Vec<char> = match self {
            NodaError::Io(_, _) => vec!['I', 'O', '_', 'E', 'R', 'R', 'O', 'R'],
            NodaError::Database(_) => vec!['D', 'A', 'T', 'A', 'B', 'A', 'S', 'E', '_', 'E', 'R', 'R', 'O', 'R'],
            NodaError::Vault(_) => vec!['V', 'A', 'U', 'L', 'T', '_', 'E', 'R', 'R', 'O', 'R'],
            NodaError::Sync(_) => vec!['S', 'Y', 'N', 'C', '_', 'E', 'R', 'R', 'O', 'R'],
            NodaError::Frontmatter(_) => vec!['F', 'R', 'O', 'N', 'T', 'M', 'A', 'T', 'T', 'E', 'R', '_', 'E', 'R', 'R', 'O', 'R'],
            NodaError::Search(_) => vec!['S', 'E', 'A', 'R', 'C', 'H', '_', 'E', 'R', 'R', 'O', 'R'],
            NodaError::Watch(_) => vec!['W', 'A', 'T', 'C', 'H', '_', 'E', 'R', 'R', 'O', 'R'],
            NodaError::PathTraversal(_) => vec!['P', 'A', 'T', 'H', '_', 'T', 'R', 'A', 'V', 'E', 'R', 'S', 'A', 'L'],
            NodaError::DuplicateFilename(_) => vec!['D', 'U', 'P', 'L', 'I', 'C', 'A', 'T', 'E', '_', 'F', 'I', 'L', 'E', 'N', 'A', 'M', 'E'],
            NodaError::NotFound(_) => vec!['N', 'O', 'T', '_', 'F', 'O', 'U', 'N', 'D'],
        };
        assert(c@ == code_of(*self));
        string_of(&c)
    }

    /// The display text of this error (`"Database error: ..."` and so on).
    pub fn message(&self) -> (r: String)
        ensures
            r@ == message_of(*self),
    {
        let (mut p, d): (Vec<char>, &String) = match self {
            NodaError::Io(_, m) => (vec!['I', '/', 'O', ' ', 'e', 'r', 'r', 'o', 'r', ':', ' '], m),
            NodaError::Database(m) => (vec!['D', 'a', 't', 'a', 'b', 'a', 's', 'e', ' ', 'e', 'r', 'r', 'o', 'r', ':', ' '], m),
            NodaError::Vault(m) => (vec!['V', 'a', 'u', 'l', 't', ' ', 'e', 'r', 'r', 'o', 'r', ':', ' '], m),
            NodaError::Sync(m) => (vec!['S', 'y', 'n', 'c', ' ', 'e', 'r', 'r', 'o', 'r', ':', ' '], m),
            NodaError::Frontmatter(m) => (vec!['F', 'r', 'o', 'n', 't', 'm', 'a', 't', 't', 'e', 'r', ' ', 'e', 'r', 'r', 'o', 'r', ':', ' '], m),
            NodaError::Search(m) => (vec!['S', 'e', 'a', 'r', 'c', 'h', ' ', 'e', 'r', 'r', 'o', 'r', ':', ' '], m),
            NodaError::Watch(m) => (vec!['W', 'a', 't', 'c', 'h', ' ', 'e', 'r', 'r', 'o', 'r', ':', ' '], m),
            NodaError::PathTraversal(m) => (vec!['P', 'a', 't', 'h', ' ', 't', 'r', 'a', 'v', 'e', 'r', 's', 'a', 'l', ' ', 'd', 'e', 't', 'e', 'c', 't', 'e', 'd', ':', ' '], m),
            NodaError::DuplicateFilename(m) => (vec!['D', 'u', 'p', 'l', 'i', 'c', 'a', 't', 'e', ' ', 'f', 'i', 'l', 'e', 'n', 'a', 'm', 'e', ':', ' '], m),
            NodaError::NotFound(m) => (vec!['R', 'e', 's', 'o', 'u', 'r', 'c', 'e', ' ', 'n', 'o', 't', ' ', 'f', 'o', 'u', 'n', 'd', ':', ' '], m),
        };
        assert(p@ == prefix_of(*self));
        assert(d@ == detail_of(*self));
        let dc = chars_of(d.as_str());
        extend_chars(&mut p, &dc);
        string_of(&p)
    }
}

/// The error value handed to the user interface: a machine-readable code and a message.
#[derive(Debug)]
pub struct AppError {
    pub code: String,
    pub message: String,
}

impl AppError {
    /// An error with the given code and message.
    pub fn new(code: String, message: String) -> (r: AppError)
        ensures
            r.code == code,
            r.message == message,
    {
        AppError { code, message }
    }

    /// An internal error: code `INTERNAL_ERROR` with the given message.
    pub fn internal(message: String) -> (r: AppError)
        ensures
            r.code@ == seq!['I', 'N', 'T', 'E', 'R', 'N', 'A', 'L', '_', 'E', 'R', 'R', 'O', 'R'],
            r.message == message,
    {
        let c = vec!['I', 'N', 'T', 'E', 'R', 'N', 'A', 'L', '_', 'E', 'R', 'R', 'O', 'R'];
        AppError { code: string_of(&c), message }
    }

    /// The error as the core reports it to the interface: its code and its display text.
    pub fn from_noda(e: &NodaError) -> (r: AppError)
        ensures
            r.code@ == code_of(*e),
            r.message@ == message_of(*e),
    {
        AppError { code: e.code(), message: e.message() }
    }

    /// The display text `"[code] message"`.
    pub fn to_text(&self) -> (r: String)
        ensures
            r@ == seq!['['] + self.code@ + seq![']', ' '] + self.message@,
    {
        let mut v: Vec<char> = vec!['['];
        let c = chars_of(self.code.as_str());
        extend_chars(&mut v, &c);
        v.push(']');
        v.push(' ');
        let m = chars_of(self.message.as_str());
        extend_chars(&mut v, &m);
        string_of(&v)
    }
}

} // verus!
