//! Why a tarball cannot be made.

use vstd::prelude::*;

verus! {

/// Why a tarball cannot be made.
#[derive(Debug)]
pub enum NpmTarballError {
    /// A dependency on the registry does not name a package.
    InvalidName { name: String, cause: String },
    /// A reference does not resolve against the address of the registry.
    InvalidUrl { reference: String },
    /// The name or the file of an export is too short to derive the name of a command from it.
    InvalidExport { key: String },
    /// A module does not transpile.
    Transpile { path: String, cause: String },
    /// The package manifest cannot be written down.
    Manifest { cause: String },
    /// A file cannot be fetched.
    Download { path: String, cause: String },
    /// A file that belongs to the package is not stored.
    MissingFile { path: String },
    /// A path does not fit in an archive header. The number is its length in bytes.
    InvalidPath { path: String, len: usize },
}

/// An error by its texts.
pub enum ErrorView {
    InvalidName { name: Seq<char>, cause: Seq<char> },
    InvalidUrl { reference: Seq<char> },
    InvalidExport { key: Seq<char> },
    Transpile { path: Seq<char>, cause: Seq<char> },
    Manifest { cause: Seq<char> },
    Download { path: Seq<char>, cause: Seq<char> },
    MissingFile { path: Seq<char> },
    InvalidPath { path: Seq<char>, len: int },
}

impl View for NpmTarballError {
    type V = ErrorView;

    open spec fn view(&self) -> ErrorView {
        match *self {
            NpmTarballError::InvalidName { name, cause } => ErrorView::InvalidName {
                name: name@,
                cause: cause@,
            },
            NpmTarballError::InvalidUrl { reference } => ErrorView::InvalidUrl {
                reference: reference@,
            },
            NpmTarballError::InvalidExport { key } => ErrorView::InvalidExport { key: key@ },
            NpmTarballError::Transpile { path, cause } => ErrorView::Transpile {
                path: path@,
                cause: cause@,
            },
            NpmTarballError::Manifest { cause } => ErrorView::Manifest { cause: cause@ },
            NpmTarballError::Download { path, cause } => ErrorView::Download {
                path: path@,
                cause: cause@,
            },
            NpmTarballError::MissingFile { path } => ErrorView::MissingFile { path: path@ },
            NpmTarballError::InvalidPath { path, len } => ErrorView::InvalidPath {
                path: path@,
                len: len as int,
            },
        }
    }
}

/// An error is known by its own texts, each under its own name.
pub proof fn errors_read_as_they_are(error: NpmTarballError)
    ensures
        match error {
            NpmTarballError::InvalidName { name, cause } => {
                &&& error@ is InvalidName
                &&& error@->InvalidName_name == name@
                &&& error@->InvalidName_cause == cause@
            },
            NpmTarballError::InvalidUrl { reference } => {
                &&& error@ is InvalidUrl
                &&& error@->reference == reference@
            },
            NpmTarballError::InvalidExport { key } => {
                &&& error@ is InvalidExport
                &&& error@->key == key@
            },
            NpmTarballError::Transpile { path, cause } => {
                &&& error@ is Transpile
                &&& error@->Transpile_path == path@
                &&& error@->Transpile_cause == cause@
            },
            NpmTarballError::Manifest { cause } => {
                &&& error@ is Manifest
                &&& error@->Manifest_cause == cause@
            },
            NpmTarballError::Download { path, cause } => {
                &&& error@ is Download
                &&& error@->Download_path == path@
                &&& error@->Download_cause == cause@
            },
            NpmTarballError::MissingFile { path } => {
                &&& error@ is MissingFile
                &&& error@->MissingFile_path == path@
            },
            NpmTarballError::InvalidPath { path, len } => {
                &&& error@ is InvalidPath
                &&& error@->InvalidPath_path == path@
                &&& error@->len == len
            },
        },
{
}

} // verus!
