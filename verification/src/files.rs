//! The files of an npm package, as they are gathered.

use indexmap::IndexMap;
use vstd::hash_set::StringHashSet;
use vstd::prelude::*;

use crate::maps::{contains_file, file_entries, has_key, insert_file, new_file_map, put};

verus! {

/// A file: its path in the package and what it holds.
#[derive(Debug)]
pub struct PackageFile {
    pub path: String,
    pub content: Vec<u8>,
}

impl View for PackageFile {
    type V = (Seq<char>, Seq<u8>);

    open spec fn view(&self) -> (Seq<char>, Seq<u8>) {
        (self.path@, self.content@)
    }
}

/// Files by their paths and contents.
pub open spec fn package_files(files: Seq<PackageFile>) -> Seq<(Seq<char>, Seq<u8>)> {
    files.map_values(|f: PackageFile| f@)
}

/// What a module adds to the package.
#[derive(Debug)]
pub struct Emitted {
    /// The code or data.
    pub code: Option<PackageFile>,
    /// Whether the code was transpiled, so that the source itself is left out.
    pub transpiled: bool,
    /// The type declarations.
    pub dts: Option<PackageFile>,
}

/// What a module adds to the package, by paths and contents.
pub struct EmittedView {
    pub code: Option<(Seq<char>, Seq<u8>)>,
    pub transpiled: bool,
    pub dts: Option<(Seq<char>, Seq<u8>)>,
}

/// An optional file by its path and contents.
pub open spec fn opt_file(file: Option<PackageFile>) -> Option<(Seq<char>, Seq<u8>)> {
    match file {
        Some(f) => Some(f@),
        None => None,
    }
}

impl View for Emitted {
    type V = EmittedView;

    open spec fn view(&self) -> EmittedView {
        EmittedView {
            code: opt_file(self.code),
            transpiled: self.transpiled,
            dts: opt_file(self.dts),
        }
    }
}

/// The files of an npm package so far.
pub struct PackageFiles {
    files: IndexMap<String, Vec<u8>>,
    transpiled: StringHashSet,
}

/// The files of an npm package so far: in order, with the paths of the sources that are left out
/// because they were transpiled.
pub struct FilesView {
    pub files: Seq<(Seq<char>, Seq<u8>)>,
    pub transpiled: Set<Seq<char>>,
}

impl View for PackageFiles {
    type V = FilesView;

    closed spec fn view(&self) -> FilesView {
        FilesView { files: file_entries(self.files), transpiled: self.transpiled@ }
    }
}

impl FilesView {
    /// No files.
    pub open spec fn empty() -> FilesView {
        FilesView { files: seq![], transpiled: Set::empty() }
    }

    /// With a file put in, in place of an earlier one with its path.
    pub open spec fn with_file(self, path: Seq<char>, content: Seq<u8>) -> FilesView {
        FilesView { files: put(self.files, path, content), ..self }
    }

    /// With what the module at `path` adds.
    pub open spec fn with_module(self, path: Seq<char>, emitted: EmittedView) -> FilesView {
        let coded = match emitted.code {
            Some(f) => self.with_file(f.0, f.1),
            None => self,
        };
        let marked = if emitted.transpiled {
            FilesView { transpiled: coded.transpiled.insert(path), ..coded }
        } else {
            coded
        };
        match emitted.dts {
            Some(f) => marked.with_file(f.0, f.1),
            None => marked,
        }
    }

    /// Whether a file of the package source still has a place: no file has its path, and it was
    /// not transpiled.
    pub open spec fn lacks(self, path: Seq<char>) -> bool {
        !has_key(self.files, path) && !self.transpiled.contains(path)
    }
}

impl PackageFiles {
    /// No files.
    pub fn new() -> (r: PackageFiles)
        ensures
            r@ == FilesView::empty(),
    {
        let r = PackageFiles { files: new_file_map(), transpiled: StringHashSet::new() };
        assert(r@.transpiled =~= Set::empty());
        r
    }

    /// Puts a file in, in place of an earlier one with its path.
    pub fn insert(&mut self, path: String, content: Vec<u8>)
        ensures
            final(self)@ == old(self)@.with_file(path@, content@),
    {
        insert_file(&mut self.files, path, content);
    }

    /// Puts in what the module at `path` adds.
    pub fn insert_module(&mut self, path: &String, emitted: Emitted)
        ensures
            final(self)@ == old(self)@.with_module(path@, emitted@),
    {
        if let Some(f) = emitted.code {
            self.insert(f.path, f.content);
        }
        if emitted.transpiled {
            self.transpiled.insert(path.clone());
        }
        if let Some(f) = emitted.dts {
            self.insert(f.path, f.content);
        }
    }

    /// Whether a file of the package source still has a place.
    pub fn lacks_file(&self, path: &str) -> (r: bool)
        ensures
            r == self@.lacks(path@),
    {
        !contains_file(&self.files, path) && !self.transpiled.contains(path)
    }

    /// The files alone.
    pub fn into_files(self) -> (r: IndexMap<String, Vec<u8>>)
        ensures
            file_entries(r) == self@.files,
    {
        self.files
    }
}

/// Files are known by their own paths and contents, in order.
pub proof fn files_read_as_they_are(files: Seq<PackageFile>, i: int)
    requires
        0 <= i < files.len(),
    ensures
        package_files(files).len() == files.len(),
        package_files(files)[i].0 == files[i].path@,
        package_files(files)[i].1 == files[i].content@,
{
}

/// What a module adds is known by the files themselves.
pub proof fn emissions_read_as_they_are(emitted: Emitted)
    ensures
        emitted@.transpiled == emitted.transpiled,
        match emitted.code {
            Some(file) => emitted@.code == Some((file.path@, file.content@)),
            None => emitted@.code is None,
        },
        match emitted.dts {
            Some(file) => emitted@.dts == Some((file.path@, file.content@)),
            None => emitted@.dts is None,
        },
{
}

} // verus!
