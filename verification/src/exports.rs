//! The exports of a package.

use indexmap::IndexMap;
use vstd::prelude::*;

use crate::convert::{rewrite_with, rewrites, rewrites_all, rewrites_as, rewrites_one_way};
use crate::maps::{
    distinct_keys, has_key, insert_text, new_text_map, text_entries, text_pairs, text_pairs_view,
};
use crate::text::{opt_text, or_text, text_or};

verus! {

/// What a package exports: a file of the package under each export name.
pub struct ExportsMap {
    inner: IndexMap<String, String>,
}

impl View for ExportsMap {
    type V = Seq<(Seq<char>, Seq<char>)>;

    closed spec fn view(&self) -> Seq<(Seq<char>, Seq<char>)> {
        text_entries(self.inner)
    }
}

impl ExportsMap {
    /// The exports that a map lists.
    pub fn new(inner: IndexMap<String, String>) -> (r: ExportsMap)
        ensures
            r@ == text_entries(inner),
    {
        ExportsMap { inner }
    }

    /// The export names with their files, in order.
    pub fn iter(&self) -> (r: Vec<(&String, &String)>)
        ensures
            text_pairs_view(r@) == self@,
            distinct_keys(self@),
    {
        text_pairs(&self.inner)
    }
}

/// Whether `entry` is what the npm exports hold for `export`: the same name, and the file as
/// rewritten, or as it is where nothing is to rewrite.
pub open spec fn exported_as<R: Fn(&str) -> Option<String>>(
    rewrite: R,
    export: (Seq<char>, Seq<char>),
    entry: (Seq<char>, Seq<char>),
) -> bool {
    &&& entry.0 == export.0
    &&& exists|answer: Option<Seq<char>>| #[trigger]
        rewrites(rewrite, export.1, answer) && entry.1 == or_text(answer, export.1)
}

/// Whether `entries` is what the npm exports hold: the exports in their order, each file rewritten.
pub open spec fn exports_become<R: Fn(&str) -> Option<String>>(
    rewrite: R,
    exports: Seq<(Seq<char>, Seq<char>)>,
    entries: Seq<(Seq<char>, Seq<char>)>,
) -> bool {
    &&& entries.len() == exports.len()
    &&& forall|i: int|
        0 <= i < exports.len() ==> exported_as(rewrite, #[trigger] exports[i], entries[i])
}

/// The exports of the npm package: the exports in their order, each file rewritten.
pub fn create_npm_exports<R: Fn(&str) -> Option<String>>(exports: &ExportsMap, rewrite: &R) -> (r:
    IndexMap<String, String>)
    requires
        rewrites_all(*rewrite),
    ensures
        exports_become(*rewrite, exports@, text_entries(r)),
{
    let list = exports.iter();
    let mut npm_exports = new_text_map();
    let mut i: usize = 0;
    while i < list.len()
        invariant
            i <= list@.len(),
            list@.len() == exports@.len(),
            text_pairs_view(list@) == exports@,
            distinct_keys(exports@),
            rewrites_all(*rewrite),
            text_entries(npm_exports).len() == i,
            forall|j: int|
                0 <= j < i ==> exported_as(
                    *rewrite,
                    #[trigger] exports@[j],
                    text_entries(npm_exports)[j],
                ),
        decreases list@.len() - i,
    {
        let (key, path) = list[i];
        assert(exports@[i as int] == (key@, path@)) by {
            assert(text_pairs_view(list@)[i as int] == (key@, path@));
        }
        let rewritten = rewrite_with(rewrite, path.as_str());
        let ghost answer = opt_text(rewritten);
        let ghost before = text_entries(npm_exports);
        let import_path = text_or(rewritten, path);
        proof {
            assert(rewrites(*rewrite, exports@[i as int].1, answer));
            assert(!has_key(before, key@)) by {
                if has_key(before, key@) {
                    let j = choose|j: int| 0 <= j < before.len() && (#[trigger] before[j]).0 == key@;
                    assert(exported_as(*rewrite, exports@[j], before[j]));
                    assert(exports@[j].0 == exports@[i as int].0);
                }
            }
        }
        insert_text(&mut npm_exports, key.clone(), import_path);
        assert(text_entries(npm_exports) == before.push((key@, import_path@)));
        assert forall|j: int| 0 <= j < i + 1 implies exported_as(
            *rewrite,
            #[trigger] exports@[j],
            text_entries(npm_exports)[j],
        ) by {
            if j < i {
                assert(exported_as(*rewrite, exports@[j], before[j]));
            }
        }
        i = i + 1;
    }
    npm_exports
}

/// Where `rewrite` has one answer about each file, there is one way for exports to become npm
/// exports.
pub proof fn exports_become_one_way<R: Fn(&str) -> Option<String>>(
    rewrite: R,
    exports: Seq<(Seq<char>, Seq<char>)>,
    a: Seq<(Seq<char>, Seq<char>)>,
    b: Seq<(Seq<char>, Seq<char>)>,
)
    requires
        rewrites_one_way(rewrite),
        exports_become(rewrite, exports, a),
        exports_become(rewrite, exports, b),
    ensures
        a == b,
{
    assert forall|i: int| 0 <= i < exports.len() implies a[i] == b[i] by {
        assert(exported_as(rewrite, exports[i], a[i]));
        assert(exported_as(rewrite, exports[i], b[i]));
    }
    assert(a =~= b);
}

/// Exports in a row become npm exports in a row: what an export becomes depends on it alone.
pub proof fn exports_in_a_row<R: Fn(&str) -> Option<String>>(
    rewrite: R,
    a: Seq<(Seq<char>, Seq<char>)>,
    b: Seq<(Seq<char>, Seq<char>)>,
    x: Seq<(Seq<char>, Seq<char>)>,
    y: Seq<(Seq<char>, Seq<char>)>,
    z: Seq<(Seq<char>, Seq<char>)>,
)
    requires
        exports_become(rewrite, a, x),
        exports_become(rewrite, b, y),
        exports_become(rewrite, a + b, z),
    ensures
        exports_become(rewrite, a + b, x + y),
        exports_become(rewrite, a, z.take(a.len() as int)),
        exports_become(rewrite, b, z.skip(a.len() as int)),
        rewrites_one_way(rewrite) ==> z == x + y,
{
    let n = a.len() as int;
    assert forall|i: int| 0 <= i < (a + b).len() implies exported_as(
        rewrite,
        #[trigger] (a + b)[i],
        (x + y)[i],
    ) by {
        if i < n {
            assert(exported_as(rewrite, a[i], x[i]));
        } else {
            assert(exported_as(rewrite, b[i - n], y[i - n]));
        }
    }
    assert forall|i: int| 0 <= i < a.len() implies exported_as(
        rewrite,
        #[trigger] a[i],
        z.take(n)[i],
    ) by {
        assert(exported_as(rewrite, (a + b)[i], z[i]));
    }
    assert forall|i: int| 0 <= i < b.len() implies exported_as(
        rewrite,
        #[trigger] b[i],
        z.skip(n)[i],
    ) by {
        assert(exported_as(rewrite, (a + b)[n + i], z[n + i]));
    }
    if rewrites_one_way(rewrite) {
        exports_become_one_way(rewrite, a + b, z, x + y);
    }
}

/// Each export keeps its name and its place, and its file is what `f` gives for it, or the file itself
/// where `f` gives nothing.
pub proof fn every_export_is_rewritten<R: Fn(&str) -> Option<String>>(
    rewrite: R,
    f: spec_fn(Seq<char>) -> Option<Seq<char>>,
    exports: Seq<(Seq<char>, Seq<char>)>,
    entries: Seq<(Seq<char>, Seq<char>)>,
)
    requires
        rewrites_as(rewrite, f),
        exports_become(rewrite, exports, entries),
    ensures
        entries.len() == exports.len(),
        forall|i: int|
            0 <= i < exports.len() ==> (#[trigger] entries[i]).0 == exports[i].0 && entries[i].1
                == match f(exports[i].1) {
                Some(file) => file,
                None => exports[i].1,
            },
{
    assert forall|i: int| 0 <= i < exports.len() implies (#[trigger] entries[i]).0 == exports[i].0
        && entries[i].1 == match f(exports[i].1) {
        Some(file) => file,
        None => exports[i].1,
    } by {
        assert(exported_as(rewrite, exports[i], entries[i]));
    }
}

} // verus!
