//! The plugin's error type, as its commands report it.

use vstd::prelude::*;

use crate::template;
use crate::text::string_of;
use crate::uru4500;

verus! {

/// Failures of the plugin's commands. `Io` and `Tauri` carry the text of
/// the underlying error.
#[derive(Debug)]
pub enum Error {
    Io(String),
    Tauri(String),
    Fingerprint(String),
    InvalidInput(String),
    Task(String),
    UnsupportedPlatform,
}

/// The text of an error, as the commands' callers receive it.
pub open spec fn error_text(e: Error) -> Seq<char> {
    match e {
        Error::Io(m) => m@,
        Error::Tauri(m) => m@,
        Error::Fingerprint(m) => m@,
        Error::InvalidInput(m) => "input tidak valid: "@ + m@,
        Error::Task(m) => "operasi fingerprint gagal dijalankan: "@ + m@,
        Error::UnsupportedPlatform => "fingerprint USB hanya didukung di macOS, Linux, dan Windows"@,
    }
}

impl Error {
    /// The text of the error.
    pub fn message(&self) -> (m: String)
        ensures
            m@ == error_text(*self),
    {
        match self {
            Error::Io(e) => e.clone(),
            Error::Tauri(e) => e.clone(),
            Error::Fingerprint(e) => e.clone(),
            Error::InvalidInput(e) => {
                let mut m = string_of("input tidak valid: ");
                m.append(e.as_str());
                m
            },
            Error::Task(e) => {
                let mut m = string_of("operasi fingerprint gagal dijalankan: ");
                m.append(e.as_str());
                m
            },
            Error::UnsupportedPlatform => string_of(
                "fingerprint USB hanya didukung di macOS, Linux, dan Windows",
            ),
        }
    }

    /// A reader failure, reported with its text.
    pub fn from_device(e: uru4500::Error) -> (r: Error)
        ensures
            r matches Error::Fingerprint(m) && m@ == uru4500::error_text(e),
    {
        Error::Fingerprint(e.message())
    }

    /// A template failure, reported with its text.
    pub fn from_template(e: template::Error) -> (r: Error)
        ensures
            r matches Error::Fingerprint(m) && m@ == template::error_text(e@),
    {
        Error::Fingerprint(e.message())
    }
}

} // verus!
