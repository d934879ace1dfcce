//! Addresses: of sources, and of a package on the registry.

use vstd::prelude::*;

verus! {

/// The address that `url::Url::parse` reads from a text, written out, if it is one.
pub uninterp spec fn parsed_url(text: Seq<char>) -> Option<Seq<char>>;

/// The address, written out, that `url::ParseOptions` gives to a reference on the base address
/// `base`, if there is one.
pub uninterp spec fn joined_url(base: Seq<char>, reference: Seq<char>) -> Option<Seq<char>>;

/// `url::Url::parse`: the address that a text is, written out. How addresses are read and written
/// is left to the crate.
#[verifier::external_body]
pub(crate) fn parse_url(text: &str) -> (r: Option<String>)
    ensures
        crate::text::opt_text(r) == parsed_url(text@),
{
    let url = url::Url::parse(text).ok()?;
    Some(url.to_string())
}

/// `url::ParseOptions::base_url` and `parse`: the address that a reference has on a base, written
/// out. How references are resolved is left to the crate.
#[verifier::external_body]
fn join_url(base: &str, reference: &str) -> (r: Option<String>)
    ensures
        crate::text::opt_text(r) == joined_url(base@, reference@),
{
    let base = url::Url::parse(base).ok()?;
    let url = url::Url::options().base_url(Some(&base)).parse(reference).ok()?;
    Some(url.to_string())
}

/// How the page of a package is referred to on the registry.
pub open spec fn package_reference(scope: Seq<char>, package: Seq<char>) -> Seq<char> {
    "./@"@ + scope + "/"@ + package
}

/// How a file of a version of a package is referred to on the registry.
pub open spec fn file_reference(
    scope: Seq<char>,
    package: Seq<char>,
    version: Seq<char>,
    path: Seq<char>,
) -> Seq<char> {
    package_reference(scope, package) + "/"@ + version + path
}

/// How the page of a package is referred to on the registry.
pub fn package_page(scope: &str, package: &str) -> (r: String)
    ensures
        r@ == package_reference(scope@, package@),
{
    let mut r = "./@".to_owned();
    r.append(scope);
    r.append("/");
    r.append(package);
    r
}

/// How a file of a version of a package is referred to on the registry.
pub fn package_file(scope: &str, package: &str, version: &str, path: &str) -> (r: String)
    ensures
        r@ == file_reference(scope@, package@, version@, path@),
{
    let mut r = package_page(scope, package);
    r.append("/");
    r.append(version);
    r.append(path);
    r
}

/// The address that a reference has on the registry, if the address of the registry can be a
/// base.
pub fn on_registry(registry_url: &str, reference: &str) -> (r: Option<String>)
    ensures
        crate::text::opt_text(r) == joined_url(registry_url@, reference@),
{
    join_url(registry_url, reference)
}

} // verus!
