//! The library's error type and its text.
use vstd::prelude::*;
use crate::paths::{FsPath, PathView, render_path};
use crate::text::{concat, push_str};

verus! {

/// Why an operation of the library failed.
#[derive(Clone, Debug, PartialEq, Eq)]
pub enum SortSmithError {
    /// A filesystem operation failed; `message` is what the system reported.
    Io { path: FsPath, message: String },
    InvalidRule(String),
    UnsafeDestination(FsPath),
    Journal(String),
    Serialization(String),
}

pub enum ErrorView {
    Io { path: PathView, message: Seq<char> },
    InvalidRule(Seq<char>),
    UnsafeDestination(PathView),
    Journal(Seq<char>),
    Serialization(Seq<char>),
}

impl View for SortSmithError {
    type V = ErrorView;

    open spec fn view(&self) -> ErrorView {
        match self {
            SortSmithError::Io { path, message } => ErrorView::Io { path: path@, message: message@ },
            SortSmithError::InvalidRule(m) => ErrorView::InvalidRule(m@),
            SortSmithError::UnsafeDestination(p) => ErrorView::UnsafeDestination(p@),
            SortSmithError::Journal(m) => ErrorView::Journal(m@),
            SortSmithError::Serialization(m) => ErrorView::Serialization(m@),
        }
    }
}

pub type Result<T> = std::result::Result<T, SortSmithError>;

/// The text of an error, as it is shown to the user.
pub open spec fn error_text(e: ErrorView) -> Seq<char> {
    match e {
        ErrorView::Io { path, message } => "I/O error at "@ + render_path(path) + ": "@ + message,
        ErrorView::InvalidRule(m) => "invalid rule: "@ + m,
        ErrorView::UnsafeDestination(p) => "unsafe destination path: "@ + render_path(p),
        ErrorView::Journal(m) => "journal error: "@ + m,
        ErrorView::Serialization(m) => "serialization error: "@ + m,
    }
}

impl SortSmithError {
    /// The text of the error, as it is shown to the user.
    pub fn to_text(&self) -> (r: String)
        ensures
            r@ == error_text(self@),
    {
        match self {
            SortSmithError::Io { path, message } => {
                let mut r = concat("I/O error at ", path.to_text().as_str());
                push_str(&mut r, ": ");
                push_str(&mut r, message.as_str());
                r
            },
            SortSmithError::InvalidRule(m) => concat("invalid rule: ", m.as_str()),
            SortSmithError::UnsafeDestination(p) => concat(
                "unsafe destination path: ",
                p.to_text().as_str(),
            ),
            SortSmithError::Journal(m) => concat("journal error: ", m.as_str()),
            SortSmithError::Serialization(m) => concat("serialization error: ", m.as_str()),
        }
    }
}

} // verus!
