//! The macOS side: patch configurations, Mach-O patching and the patch flow.

pub mod cli;
pub mod config;
pub mod macho;
pub mod patcher;

use vstd::prelude::*;

verus! {

/// Everything that can go wrong while patching WeChat on macOS.
#[derive(Debug)]
pub enum Error {
    AppNotFound(String),
    UnsupportedVersion(String),
    ConfigLoad(String),
    Patch(String),
    Codesign(String),
    Io(String),
}

/// The mathematical value of an [`Error`]: its variant and its message.
pub enum ErrorView {
    AppNotFound(Seq<char>),
    UnsupportedVersion(Seq<char>),
    ConfigLoad(Seq<char>),
    Patch(Seq<char>),
    Codesign(Seq<char>),
    Io(Seq<char>),
}

impl View for Error {
    type V = ErrorView;

    open spec fn view(&self) -> ErrorView {
        match self {
            Error::AppNotFound(m) => ErrorView::AppNotFound(m@),
            Error::UnsupportedVersion(m) => ErrorView::UnsupportedVersion(m@),
            Error::ConfigLoad(m) => ErrorView::ConfigLoad(m@),
            Error::Patch(m) => ErrorView::Patch(m@),
            Error::Codesign(m) => ErrorView::Codesign(m@),
            Error::Io(m) => ErrorView::Io(m@),
        }
    }
}

} // verus!
