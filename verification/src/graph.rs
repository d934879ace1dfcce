//! The modules of a package.

use vstd::prelude::*;

verus! {

/// What kind of source a module is.
#[derive(Clone, Copy, Debug, PartialEq, Eq, Structural)]
pub enum MediaType {
    JavaScript,
    Jsx,
    Mjs,
    Cjs,
    TypeScript,
    Mts,
    Cts,
    Dts,
    Dmts,
    Dcts,
    Tsx,
    Json,
    Wasm,
    TsBuildInfo,
    SourceMap,
    Unknown,
}

impl MediaType {
    /// Whether sources of this kind run as they are, once their specifiers are rewritten.
    pub open spec fn is_script(self) -> bool {
        self is JavaScript || self is Mjs
    }

    /// Whether sources of this kind are type declarations.
    pub open spec fn is_declaration(self) -> bool {
        self is Dts || self is Dmts
    }

    /// Whether sources of this kind are transpiled.
    pub open spec fn is_transpiled(self) -> bool {
        self is Jsx || self is TypeScript || self is Mts || self is Tsx
    }
}

/// What a module is made of.
#[derive(Debug)]
pub enum ModuleKind {
    /// JSON data.
    Json { source: String },
    /// Code, and the type declarations that were generated for it.
    Js { media_type: MediaType, source: String, dts: Option<String> },
    /// Anything else.
    Other,
}

/// A module.
#[derive(Debug)]
pub struct Module {
    /// The address of the module.
    pub specifier: String,
    /// The scheme of the address.
    pub scheme: String,
    /// The path of the address.
    pub path: String,
    pub kind: ModuleKind,
}

impl Module {
    /// Whether the module is a file of the package.
    pub open spec fn is_file(self) -> bool {
        self.scheme@ == "file"@
    }

    /// Whether the module is packed from its parsed source.
    pub open spec fn needs_source(self) -> bool {
        self.is_file() && match self.kind {
            ModuleKind::Js { media_type, .. } => media_type.is_script()
                || media_type.is_transpiled(),
            _ => false,
        }
    }
}

} // verus!
