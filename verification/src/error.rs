//! The error type of all fallible operations of the library.
use vstd::prelude::*;
use vstd::string::StringExecFns;
use std::io::Error as IoFailure;
use std::path::PathBuf;
use ignore::Error as WalkFailure;
use tree_sitter::{LanguageError, QueryError};

verus! {

#[verifier::external_type_specification]
#[verifier::external_body]
pub struct ExPathBuf(PathBuf);

#[verifier::external_type_specification]
#[verifier::external_body]
pub struct ExIoFailure(IoFailure);

#[verifier::external_type_specification]
#[verifier::external_body]
pub struct ExWalkFailure(WalkFailure);

#[verifier::external_type_specification]
#[verifier::external_body]
pub struct ExQueryError(QueryError);

#[verifier::external_type_specification]
#[verifier::external_body]
pub struct ExLanguageError(LanguageError);

/// All fallible operations return this error.
#[derive(Debug)]
pub enum Error {
    /// A file could not be read.
    Io { path: PathBuf, source: IoFailure },
    /// Walking the files failed.
    Walk(WalkFailure),
    /// The chunk query of a language does not compile.
    Query { language: &'static str, source: QueryError },
    /// tree-sitter rejected the grammar of a language.
    Grammar { language: &'static str, source: LanguageError },
}

pub type Result<T> = std::result::Result<T, Error>;

/// `std::path::Path::display` of a path, as a `String`.
#[verifier::external_body]
fn path_display(path: &PathBuf) -> String {
    path.display().to_string()
}

impl Error {
    /// The error's message (what `Display` shows).
    pub fn message(&self) -> (res: String)
        ensures
            self matches Error::Walk(_) ==> res@ == "error while walking files"@,
            self matches Error::Query { language, .. } ==> res@ == "invalid chunk query for "@
                + language@,
            self matches Error::Grammar { language, .. } ==> res@ == "tree-sitter rejected the "@
                + language@ + " grammar"@,
            self matches Error::Io { .. } ==> res@.len() >= "failed to read "@.len()
                && res@.take("failed to read "@.len() as int) == "failed to read "@,
    {
        match self {
            Error::Io { path, .. } => {
                let mut m = String::from_str("failed to read ");
                let p = path_display(path);
                let ghost head = m@;
                m.append(p.as_str());
                assert(m@.take(head.len() as int) =~= head);
                m
            },
            Error::Walk(_) => String::from_str("error while walking files"),
            Error::Query { language, .. } => {
                let mut m = String::from_str("invalid chunk query for ");
                m.append(language);
                m
            },
            Error::Grammar { language, .. } => {
                let mut m = String::from_str("tree-sitter rejected the ");
                m.append(language);
                m.append(" grammar");
                m
            },
        }
    }
}

} // verus!
