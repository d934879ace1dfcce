//! Conversions that the caller supplies.
//!
//! How a module specifier or a file extension is spelled in an npm package is a convention of
//! the registry, which hands it in as functions. The relations here say that such a function, asked
//! about a text, may give a certain answer.

use vstd::prelude::*;

use crate::source::ParsedSource;
use crate::text::{opt_text, result_text};

verus! {

/// The extension that a file gets in an npm package.
#[derive(Clone, Copy, Debug, PartialEq, Eq, Structural)]
pub enum Extension {
    /// Executable code.
    Js,
    /// Type declarations.
    Dts,
}

/// Whether a specifier rewriter accepts every text.
pub open spec fn rewrites_all<R: Fn(&str) -> Option<String>>(rewrite: R) -> bool {
    forall|s: &str| #[trigger] call_requires(rewrite, (s,))
}

/// Whether `rewrite` may answer `answer` when asked about `specifier`.
pub open spec fn rewrites<R: Fn(&str) -> Option<String>>(
    rewrite: R,
    specifier: Seq<char>,
    answer: Option<Seq<char>>,
) -> bool {
    exists|s: &str, r: Option<String>|
        s@ == specifier && #[trigger] call_ensures(rewrite, (s,), r) && opt_text(r) == answer
}

/// Whether `rewrite` has one answer about each specifier.
pub open spec fn rewrites_one_way<R: Fn(&str) -> Option<String>>(rewrite: R) -> bool {
    forall|s: Seq<char>, a: Option<Seq<char>>, b: Option<Seq<char>>| #[trigger]
        rewrites(rewrite, s, a) && #[trigger] rewrites(rewrite, s, b) ==> a == b
}

/// Asks `rewrite` about a specifier.
pub fn rewrite_with<R: Fn(&str) -> Option<String>>(rewrite: &R, specifier: &str) -> (r: Option<
    String,
>)
    requires
        rewrites_all(*rewrite),
    ensures
        rewrites(*rewrite, specifier@, opt_text(r)),
{
    let r = rewrite(specifier);
    assert(call_ensures(*rewrite, (specifier,), r));
    r
}

/// Whether an extension rewriter accepts every path.
pub open spec fn extends_all<X: Fn(&str, Extension) -> Option<String>>(extend: X) -> bool {
    forall|s: &str, e: Extension| #[trigger] call_requires(extend, (s, e))
}

/// Whether `extend` may answer `answer` when asked to give `path` the extension.
pub open spec fn extends<X: Fn(&str, Extension) -> Option<String>>(
    extend: X,
    path: Seq<char>,
    extension: Extension,
    answer: Option<Seq<char>>,
) -> bool {
    exists|s: &str, r: Option<String>|
        s@ == path && #[trigger] call_ensures(extend, (s, extension), r) && opt_text(r) == answer
}

/// Whether `extend` has one answer about each path and extension.
pub open spec fn extends_one_way<X: Fn(&str, Extension) -> Option<String>>(extend: X) -> bool {
    forall|s: Seq<char>, e: Extension, a: Option<Seq<char>>, b: Option<Seq<char>>| #[trigger]
        extends(extend, s, e, a) && #[trigger] extends(extend, s, e, b) ==> a == b
}

/// Asks `extend` to give `path` the extension.
pub fn extend_with<X: Fn(&str, Extension) -> Option<String>>(
    extend: &X,
    path: &str,
    extension: Extension,
) -> (r: Option<String>)
    requires
        extends_all(*extend),
    ensures
        extends(*extend, path@, extension, opt_text(r)),
{
    let r = extend(path, extension);
    assert(call_ensures(*extend, (path, extension), r));
    r
}

/// Whether a naming function accepts every name.
pub open spec fn names_all<N: Fn(&str) -> Result<String, String>>(npm_name: N) -> bool {
    forall|s: &str| #[trigger] call_requires(npm_name, (s,))
}

/// Whether `npm_name` may answer `answer` when asked for the npm name of a registry package: the
/// name, or why `name` names no package.
pub open spec fn names<N: Fn(&str) -> Result<String, String>>(
    npm_name: N,
    name: Seq<char>,
    answer: Result<Seq<char>, Seq<char>>,
) -> bool {
    exists|s: &str, r: Result<String, String>|
        s@ == name && #[trigger] call_ensures(npm_name, (s,), r) && result_text(r) == answer
}

/// Whether `npm_name` has one answer about each name.
pub open spec fn names_one_way<N: Fn(&str) -> Result<String, String>>(npm_name: N) -> bool {
    forall|
        s: Seq<char>,
        a: Result<Seq<char>, Seq<char>>,
        b: Result<Seq<char>, Seq<char>>,
    | #[trigger]
        names(npm_name, s, a) && #[trigger] names(npm_name, s, b) ==> a == b
}

/// Asks `npm_name` for the npm name of a registry package.
pub fn name_with<N: Fn(&str) -> Result<String, String>>(npm_name: &N, name: &str) -> (r: Result<
    String,
    String,
>)
    requires
        names_all(*npm_name),
    ensures
        names(*npm_name, name@, result_text(r)),
{
    let r = npm_name(name);
    assert(call_ensures(*npm_name, (name,), r));
    r
}

/// Whether a transpiler accepts every source.
pub open spec fn transpiles_all<T: Fn(&ParsedSource, &str) -> Result<String, String>>(
    transpile: T,
) -> bool {
    forall|source: &ParsedSource, url: &str| #[trigger] call_requires(transpile, (source, url))
}

/// Whether `transpile` may answer `answer` when asked for the code of a source with the given
/// address: the code, or why the source does not transpile.
pub open spec fn transpiles<T: Fn(&ParsedSource, &str) -> Result<String, String>>(
    transpile: T,
    source: ParsedSource,
    url: Seq<char>,
    answer: Result<Seq<char>, Seq<char>>,
) -> bool {
    exists|u: &str, r: Result<String, String>|
        u@ == url && #[trigger] call_ensures(transpile, (&source, u), r) && result_text(r) == answer
}

/// Whether `transpile` has one answer about each source and address.
pub open spec fn transpiles_one_way<T: Fn(&ParsedSource, &str) -> Result<String, String>>(
    transpile: T,
) -> bool {
    forall|
        source: ParsedSource,
        url: Seq<char>,
        a: Result<Seq<char>, Seq<char>>,
        b: Result<Seq<char>, Seq<char>>,
    | #[trigger]
        transpiles(transpile, source, url, a) && #[trigger] transpiles(transpile, source, url, b)
            ==> a == b
}

/// Asks `transpile` for the code of a source with the given address.
pub fn transpile_with<T: Fn(&ParsedSource, &str) -> Result<String, String>>(
    transpile: &T,
    source: &ParsedSource,
    url: &str,
) -> (r: Result<String, String>)
    requires
        transpiles_all(*transpile),
    ensures
        transpiles(*transpile, *source, url@, result_text(r)),
{
    let r = transpile(source, url);
    assert(call_ensures(*transpile, (source, url), r));
    r
}

/// Whether `rewrite`, asked about a specifier, answers what `f` gives.
pub open spec fn rewrites_as<R: Fn(&str) -> Option<String>>(
    rewrite: R,
    f: spec_fn(Seq<char>) -> Option<Seq<char>>,
) -> bool {
    forall|s: &str, r: Option<String>| #[trigger]
        call_ensures(rewrite, (s,), r) ==> match r {
            Some(t) => f(s@) == Some(t@),
            None => f(s@) is None,
        }
}

/// Whether `extend`, asked about a path and an extension, answers what `f` gives.
pub open spec fn extends_as<X: Fn(&str, Extension) -> Option<String>>(
    extend: X,
    f: spec_fn(Seq<char>, Extension) -> Option<Seq<char>>,
) -> bool {
    forall|s: &str, e: Extension, r: Option<String>| #[trigger]
        call_ensures(extend, (s, e), r) ==> match r {
            Some(t) => f(s@, e) == Some(t@),
            None => f(s@, e) is None,
        }
}

/// Whether `npm_name`, asked about a name, answers what `f` gives.
pub open spec fn names_as<N: Fn(&str) -> Result<String, String>>(
    npm_name: N,
    f: spec_fn(Seq<char>) -> Result<Seq<char>, Seq<char>>,
) -> bool {
    forall|s: &str, r: Result<String, String>| #[trigger]
        call_ensures(npm_name, (s,), r) ==> match r {
            Ok(t) => f(s@) == Ok::<Seq<char>, Seq<char>>(t@),
            Err(t) => f(s@) == Err::<Seq<char>, Seq<char>>(t@),
        }
}

/// Whether `transpile`, asked about a source and an address, answers what `f` gives.
pub open spec fn transpiles_as<T: Fn(&ParsedSource, &str) -> Result<String, String>>(
    transpile: T,
    f: spec_fn(ParsedSource, Seq<char>) -> Result<Seq<char>, Seq<char>>,
) -> bool {
    forall|source: &ParsedSource, url: &str, r: Result<String, String>| #[trigger]
        call_ensures(transpile, (source, url), r) ==> match r {
            Ok(t) => f(*source, url@) == Ok::<Seq<char>, Seq<char>>(t@),
            Err(t) => f(*source, url@) == Err::<Seq<char>, Seq<char>>(t@),
        }
}

} // verus!
