//! The dependencies of a package.

use indexmap::IndexMap;
use vstd::prelude::*;
use vstd::seq_lib::to_multiset_contains;

use crate::convert::{name_with, names, names_all, names_as, names_one_way};
use crate::error::{ErrorView, NpmTarballError};
use crate::maps::{
    arrangement_is_unique, distinct_keys, has_key, insert_text, lemma_mapped_multiset,
    lemma_put_keys, lemma_reordered_distinct, lemma_sorted_distinct, membership_decides,
    new_text_map, put, put_changes_one_key, sort_text, sorted_keys, text_entries,
};
use crate::text::precedes;

verus! {

/// Where a dependency comes from.
#[derive(Clone, Copy, Debug, PartialEq, Eq, Structural)]
pub enum DependencyKind {
    /// A package of the registry itself.
    Jsr,
    /// A package of npm.
    Npm,
}

/// A package and the versions of it that will do.
#[derive(Debug)]
pub struct PackageReq {
    /// The name of the package.
    pub name: String,
    /// The version requirement, as written.
    pub version_req: String,
}

/// The npm name and the version requirement of a dependency, where `npm_name` is the npm name that
/// its name has if it is a package of the registry.
pub open spec fn npm_requirement(
    dependency: (DependencyKind, PackageReq),
    npm_name: Seq<char>,
) -> (Seq<char>, Seq<char>) {
    match dependency.0 {
        DependencyKind::Jsr => (npm_name, dependency.1.version_req@),
        DependencyKind::Npm => (dependency.1.name@, dependency.1.version_req@),
    }
}

/// Whether `answers` holds an npm name that `npm_name` may give to each dependency on the registry.
pub open spec fn named<N: Fn(&str) -> Result<String, String>>(
    npm_name: N,
    dependencies: Seq<(DependencyKind, PackageReq)>,
    answers: Seq<Seq<char>>,
) -> bool {
    &&& answers.len() == dependencies.len()
    &&& forall|i: int|
        0 <= i < dependencies.len() && (#[trigger] dependencies[i]).0 is Jsr ==> names(
            npm_name,
            dependencies[i].1.name@,
            Ok(answers[i]),
        )
}

/// The npm dependencies, one after the other: of two with the same npm name the later requirement
/// stays, in the earlier place.
pub open spec fn npm_requirements(
    dependencies: Seq<(DependencyKind, PackageReq)>,
    answers: Seq<Seq<char>>,
) -> Seq<(Seq<char>, Seq<char>)>
    decreases dependencies.len(),
{
    if dependencies.len() == 0 {
        seq![]
    } else {
        let last = npm_requirement(dependencies.last(), answers.last());
        put(npm_requirements(dependencies.drop_last(), answers.drop_last()), last.0, last.1)
    }
}

/// Whether `entries` is what the npm dependencies hold: the requirement under each npm name, in the
/// order of names.
pub open spec fn dependencies_become<N: Fn(&str) -> Result<String, String>>(
    npm_name: N,
    dependencies: Seq<(DependencyKind, PackageReq)>,
    entries: Seq<(Seq<char>, Seq<char>)>,
) -> bool {
    &&& sorted_keys(entries)
    &&& exists|answers: Seq<Seq<char>>| #[trigger]
        named(npm_name, dependencies, answers) && entries.to_multiset() == npm_requirements(
            dependencies,
            answers,
        ).to_multiset()
}

/// Whether `failed` is the first dependency whose name `npm_name` rejects, for the given reason.
pub open spec fn rejected<N: Fn(&str) -> Result<String, String>>(
    npm_name: N,
    dependencies: Seq<(DependencyKind, PackageReq)>,
    failed: int,
    cause: Seq<char>,
) -> bool {
    &&& 0 <= failed < dependencies.len()
    &&& dependencies[failed].0 is Jsr
    &&& exists|answers: Seq<Seq<char>>| #[trigger]
        named(npm_name, dependencies.take(failed), answers)
    &&& names(npm_name, dependencies[failed].1.name@, Err(cause))
}

/// Whether the dependencies may fail with `error`, for the first name that is rejected.
pub open spec fn dependency_fails<N: Fn(&str) -> Result<String, String>>(
    npm_name: N,
    dependencies: Seq<(DependencyKind, PackageReq)>,
    error: ErrorView,
) -> bool {
    exists|failed: int, cause: Seq<char>|
        {
            &&& #[trigger] rejected(npm_name, dependencies, failed, cause)
            &&& error == (ErrorView::InvalidName {
                name: dependencies[failed].1.name@,
                cause,
            })
        }
}

/// Whether `r` is what the dependencies may come to: the npm dependencies, or the first name that is
/// rejected.
pub open spec fn created_dependencies<N: Fn(&str) -> Result<String, String>>(
    npm_name: N,
    dependencies: Seq<(DependencyKind, PackageReq)>,
    r: Result<IndexMap<String, String>, NpmTarballError>,
) -> bool {
    match r {
        Ok(m) => dependencies_become(npm_name, dependencies, text_entries(m)),
        Err(e) => dependency_fails(npm_name, dependencies, e@),
    }
}

/// The dependencies of the npm package: the requirement under each npm name, in the order of
/// names. Fails with the first dependency on the registry whose name is not valid.
pub fn create_npm_dependencies<N: Fn(&str) -> Result<String, String>>(
    dependencies: &Vec<(DependencyKind, PackageReq)>,
    npm_name: &N,
) -> (r: Result<IndexMap<String, String>, NpmTarballError>)
    requires
        names_all(*npm_name),
    ensures
        created_dependencies(*npm_name, dependencies@, r),
{
    let mut npm_dependencies = new_text_map();
    let ghost mut answers: Seq<Seq<char>> = Seq::empty();
    let mut i: usize = 0;
    while i < dependencies.len()
        invariant
            i <= dependencies@.len(),
            names_all(*npm_name),
            named(*npm_name, dependencies@.take(i as int), answers),
            text_entries(npm_dependencies) == npm_requirements(
                dependencies@.take(i as int),
                answers,
            ),
        decreases dependencies@.len() - i,
    {
        let ghost before = answers;
        let kind = dependencies[i].0;
        let req = &dependencies[i].1;
        let name = match kind {
            DependencyKind::Jsr => {
                match name_with(npm_name, req.name.as_str()) {
                    Ok(name) => name,
                    Err(cause) => {
                        assert(rejected(*npm_name, dependencies@, i as int, cause@));
                        return Err(
                            NpmTarballError::InvalidName { name: req.name.clone(), cause },
                        );
                    },
                }
            },
            DependencyKind::Npm => req.name.clone(),
        };
        proof {
            answers = answers.push(name@);
            assert(dependencies@.take(i + 1).drop_last() =~= dependencies@.take(i as int));
            assert(answers.drop_last() =~= before);
            assert forall|j: int|
                0 <= j < i + 1 && (#[trigger] dependencies@.take(i + 1)[j]).0 is Jsr implies names(
                *npm_name,
                dependencies@.take(i + 1)[j].1.name@,
                Ok(answers[j]),
            ) by {
                if j < i {
                    assert(dependencies@.take(i as int)[j] == dependencies@[j]);
                }
            }
        }
        insert_text(&mut npm_dependencies, name, req.version_req.clone());
        i = i + 1;
    }
    assert(dependencies@.take(i as int) =~= dependencies@);
    sort_text(&mut npm_dependencies);
    assert(named(*npm_name, dependencies@, answers));
    Ok(npm_dependencies)
}

/// Whether no later dependency has the same npm name.
pub open spec fn settles(
    dependencies: Seq<(DependencyKind, PackageReq)>,
    answers: Seq<Seq<char>>,
    i: int,
) -> bool {
    &&& 0 <= i < dependencies.len()
    &&& forall|j: int|
        i < j < dependencies.len() ==> npm_requirement(#[trigger] dependencies[j], answers[j]).0
            != npm_requirement(dependencies[i], answers[i]).0
}

/// Whether `entry` is the requirement of the last dependency with its npm name.
pub open spec fn settled(
    dependencies: Seq<(DependencyKind, PackageReq)>,
    answers: Seq<Seq<char>>,
    entry: (Seq<char>, Seq<char>),
) -> bool {
    exists|i: int| #[trigger]
        settles(dependencies, answers, i) && entry == npm_requirement(dependencies[i], answers[i])
}

/// Of all dependencies with an npm name the last one settles the requirement, and there are no
/// others.
pub proof fn last_requirement_settles(
    dependencies: Seq<(DependencyKind, PackageReq)>,
    answers: Seq<Seq<char>>,
    entry: (Seq<char>, Seq<char>),
)
    requires
        answers.len() == dependencies.len(),
    ensures
        npm_requirements(dependencies, answers).contains(entry) == settled(
            dependencies,
            answers,
            entry,
        ),
        distinct_keys(npm_requirements(dependencies, answers)),
    decreases dependencies.len(),
{
    if dependencies.len() > 0 {
        let rest = dependencies.drop_last();
        let rest_answers = answers.drop_last();
        let n = dependencies.len() - 1;
        let last = npm_requirement(dependencies[n], answers[n]);
        last_requirement_settles(rest, rest_answers, entry);
        put_changes_one_key(npm_requirements(rest, rest_answers), last.0, last.1);
        assert(settles(dependencies, answers, n));
        if entry.0 != last.0 {
            if settled(rest, rest_answers, entry) {
                let i = choose|i: int| #[trigger]
                    settles(rest, rest_answers, i) && entry == npm_requirement(
                        rest[i],
                        rest_answers[i],
                    );
                assert forall|j: int| i < j < dependencies.len() implies npm_requirement(
                    #[trigger] dependencies[j],
                    answers[j],
                ).0 != npm_requirement(dependencies[i], answers[i]).0 by {
                    if j < n {
                        assert(rest[j] == dependencies[j]);
                    }
                }
                assert(settles(dependencies, answers, i));
            }
            if settled(dependencies, answers, entry) {
                let i = choose|i: int| #[trigger]
                    settles(dependencies, answers, i) && entry == npm_requirement(
                        dependencies[i],
                        answers[i],
                    );
                assert forall|j: int| i < j < rest.len() implies npm_requirement(
                    #[trigger] rest[j],
                    rest_answers[j],
                ).0 != npm_requirement(rest[i], rest_answers[i]).0 by {
                    assert(rest[j] == dependencies[j]);
                }
                assert(settles(rest, rest_answers, i));
            }
        } else if settled(dependencies, answers, entry) {
            let i = choose|i: int| #[trigger]
                settles(dependencies, answers, i) && entry == npm_requirement(
                    dependencies[i],
                    answers[i],
                );
            assert(i == n) by {
                if i < n {
                    assert(npm_requirement(dependencies[n], answers[n]).0 != entry.0);
                }
            }
        }
    }
}

/// The npm dependencies hold the last requirement under each npm name, and each name once.
pub proof fn dependencies_hold_last_requirements<N: Fn(&str) -> Result<String, String>>(
    npm_name: N,
    dependencies: Seq<(DependencyKind, PackageReq)>,
    entries: Seq<(Seq<char>, Seq<char>)>,
)
    requires
        dependencies_become(npm_name, dependencies, entries),
    ensures
        distinct_keys(entries),
        exists|answers: Seq<Seq<char>>|
            {
                &&& #[trigger] named(npm_name, dependencies, answers)
                &&& forall|entry: (Seq<char>, Seq<char>)| #[trigger]
                    entries.contains(entry) == settled(dependencies, answers, entry)
            },
{
    let answers = choose|answers: Seq<Seq<char>>| #[trigger]
        named(npm_name, dependencies, answers) && entries.to_multiset() == npm_requirements(
            dependencies,
            answers,
        ).to_multiset();
    assert forall|entry: (Seq<char>, Seq<char>)| #[trigger] entries.contains(entry) == settled(
        dependencies,
        answers,
        entry,
    ) by {
        last_requirement_settles(dependencies, answers, entry);
        to_multiset_contains(entries, entry);
        to_multiset_contains(npm_requirements(dependencies, answers), entry);
    }
    lemma_sorted_distinct(entries);
}

/// Whether every dependency on the registry may have an npm name.
pub open spec fn all_named<N: Fn(&str) -> Result<String, String>>(
    npm_name: N,
    dependencies: Seq<(DependencyKind, PackageReq)>,
) -> bool {
    exists|answers: Seq<Seq<char>>| #[trigger] named(npm_name, dependencies, answers)
}

/// The npm name and the version requirement of each dependency.
pub open spec fn requirements(
    dependencies: Seq<(DependencyKind, PackageReq)>,
    answers: Seq<Seq<char>>,
) -> Seq<(Seq<char>, Seq<char>)> {
    Seq::new(dependencies.len(), |i: int| npm_requirement(dependencies[i], answers[i]))
}

/// Dependencies by their texts.
pub open spec fn dependency_views(dependencies: Seq<(DependencyKind, PackageReq)>) -> Seq<
    (DependencyKind, Seq<char>, Seq<char>),
> {
    dependencies.map_values(
        |d: (DependencyKind, PackageReq)| (d.0, d.1.name@, d.1.version_req@),
    )
}

/// Whether no two dependencies may have the same npm name.
pub open spec fn named_apart<N: Fn(&str) -> Result<String, String>>(
    npm_name: N,
    dependencies: Seq<(DependencyKind, PackageReq)>,
) -> bool {
    forall|answers: Seq<Seq<char>>| #[trigger]
        named(npm_name, dependencies, answers) ==> distinct_keys(
            requirements(dependencies, answers),
        )
}

/// Where names are answered one way, dependencies that all have npm names do not fail.
pub proof fn named_or_failed<N: Fn(&str) -> Result<String, String>>(
    npm_name: N,
    dependencies: Seq<(DependencyKind, PackageReq)>,
    error: ErrorView,
)
    requires
        names_one_way(npm_name),
        dependency_fails(npm_name, dependencies, error),
    ensures
        !all_named(npm_name, dependencies),
{
    let (failed, cause) = choose|failed: int, cause: Seq<char>|
        {
            &&& #[trigger] rejected(npm_name, dependencies, failed, cause)
            &&& error == (ErrorView::InvalidName {
                name: dependencies[failed].1.name@,
                cause,
            })
        };
    if all_named(npm_name, dependencies) {
        let answers = choose|answers: Seq<Seq<char>>| #[trigger]
            named(npm_name, dependencies, answers);
        assert(names(npm_name, dependencies[failed].1.name@, Ok(answers[failed])));
        assert(names(npm_name, dependencies[failed].1.name@, Err(cause)));
    }
}

/// Where names are answered one way, dependencies fail in one way.
pub proof fn dependencies_fail_one_way<N: Fn(&str) -> Result<String, String>>(
    npm_name: N,
    dependencies: Seq<(DependencyKind, PackageReq)>,
    a: ErrorView,
    b: ErrorView,
)
    requires
        names_one_way(npm_name),
        dependency_fails(npm_name, dependencies, a),
        dependency_fails(npm_name, dependencies, b),
    ensures
        a == b,
{
    let (i, x) = choose|i: int, x: Seq<char>|
        {
            &&& #[trigger] rejected(npm_name, dependencies, i, x)
            &&& a == (ErrorView::InvalidName { name: dependencies[i].1.name@, cause: x })
        };
    let (j, y) = choose|j: int, y: Seq<char>|
        {
            &&& #[trigger] rejected(npm_name, dependencies, j, y)
            &&& b == (ErrorView::InvalidName { name: dependencies[j].1.name@, cause: y })
        };
    lemma_rejected_not_before(npm_name, dependencies, i, x, j, y);
    lemma_rejected_not_before(npm_name, dependencies, j, y, i, x);
    let first: Result<Seq<char>, Seq<char>> = Err(x);
    let second: Result<Seq<char>, Seq<char>> = Err(y);
    assert(names(npm_name, dependencies[i].1.name@, first));
    assert(names(npm_name, dependencies[i].1.name@, second));
    assert(first == second);
}

/// What is rejected later was not rejected earlier.
proof fn lemma_rejected_not_before<N: Fn(&str) -> Result<String, String>>(
    npm_name: N,
    dependencies: Seq<(DependencyKind, PackageReq)>,
    i: int,
    x: Seq<char>,
    j: int,
    y: Seq<char>,
)
    requires
        names_one_way(npm_name),
        rejected(npm_name, dependencies, i, x),
        rejected(npm_name, dependencies, j, y),
    ensures
        j <= i,
{
    if i < j {
        let before = dependencies.take(j);
        let answers = choose|answers: Seq<Seq<char>>| #[trigger] named(npm_name, before, answers);
        assert(before[i] == dependencies[i]);
        assert(names(npm_name, dependencies[i].1.name@, Ok(answers[i])));
        assert(names(npm_name, dependencies[i].1.name@, Err(x)));
    }
}

/// Where names are answered one way, dependencies have one set of requirements.
proof fn lemma_same_requirements<N: Fn(&str) -> Result<String, String>>(
    npm_name: N,
    dependencies: Seq<(DependencyKind, PackageReq)>,
    x: Seq<Seq<char>>,
    y: Seq<Seq<char>>,
)
    requires
        names_one_way(npm_name),
        named(npm_name, dependencies, x),
        named(npm_name, dependencies, y),
    ensures
        npm_requirements(dependencies, x) == npm_requirements(dependencies, y),
    decreases dependencies.len(),
{
    if dependencies.len() > 0 {
        let n = dependencies.len() - 1;
        lemma_named_parts(npm_name, dependencies.drop_last(), seq![dependencies[n]], x);
        lemma_named_parts(npm_name, dependencies.drop_last(), seq![dependencies[n]], y);
        assert(dependencies.drop_last() + seq![dependencies[n]] =~= dependencies);
        assert(x.take(n) =~= x.drop_last());
        assert(y.take(n) =~= y.drop_last());
        lemma_same_requirements(npm_name, dependencies.drop_last(), x.drop_last(), y.drop_last());
        if dependencies[n].0 is Jsr {
            let first: Result<Seq<char>, Seq<char>> = Ok(x[n]);
            let second: Result<Seq<char>, Seq<char>> = Ok(y[n]);
            assert(names(npm_name, dependencies[n].1.name@, first));
            assert(names(npm_name, dependencies[n].1.name@, second));
            assert(first == second);
        }
    }
}

/// Answers about dependencies in a row are answers about both parts.
proof fn lemma_named_parts<N: Fn(&str) -> Result<String, String>>(
    npm_name: N,
    a: Seq<(DependencyKind, PackageReq)>,
    b: Seq<(DependencyKind, PackageReq)>,
    answers: Seq<Seq<char>>,
)
    requires
        named(npm_name, a + b, answers),
    ensures
        named(npm_name, a, answers.take(a.len() as int)),
        named(npm_name, b, answers.skip(a.len() as int)),
{
    let n = a.len() as int;
    assert forall|i: int| 0 <= i < a.len() && (#[trigger] a[i]).0 is Jsr implies names(
        npm_name,
        a[i].1.name@,
        Ok(answers.take(n)[i]),
    ) by {
        assert((a + b)[i] == a[i]);
    }
    assert forall|i: int| 0 <= i < b.len() && (#[trigger] b[i]).0 is Jsr implies names(
        npm_name,
        b[i].1.name@,
        Ok(answers.skip(n)[i]),
    ) by {
        assert((a + b)[n + i] == b[i]);
    }
}

/// Answers about both parts are answers about dependencies in a row.
proof fn lemma_named_together<N: Fn(&str) -> Result<String, String>>(
    npm_name: N,
    a: Seq<(DependencyKind, PackageReq)>,
    b: Seq<(DependencyKind, PackageReq)>,
    x: Seq<Seq<char>>,
    y: Seq<Seq<char>>,
)
    requires
        named(npm_name, a, x),
        named(npm_name, b, y),
    ensures
        named(npm_name, a + b, x + y),
{
    assert forall|i: int| 0 <= i < (a + b).len() && (#[trigger] (a + b)[i]).0 is Jsr implies names(
        npm_name,
        (a + b)[i].1.name@,
        Ok((x + y)[i]),
    ) by {
        if i < a.len() {
            assert((a + b)[i] == a[i]);
        } else {
            assert((a + b)[i] == b[i - a.len()]);
        }
    }
}

/// What one dependency requires, where names are answered one way.
pub open spec fn requirement_of<N: Fn(&str) -> Result<String, String>>(
    npm_name: N,
    dependency: (DependencyKind, Seq<char>, Seq<char>),
) -> (Seq<char>, Seq<char>) {
    match dependency.0 {
        DependencyKind::Jsr => (
            choose|answer: Seq<char>| #[trigger] names(npm_name, dependency.1, Ok(answer)),
            dependency.2,
        ),
        DependencyKind::Npm => (dependency.1, dependency.2),
    }
}

/// What dependencies require is what each requires.
proof fn lemma_requirements_of<N: Fn(&str) -> Result<String, String>>(
    npm_name: N,
    dependencies: Seq<(DependencyKind, PackageReq)>,
    answers: Seq<Seq<char>>,
)
    requires
        names_one_way(npm_name),
        named(npm_name, dependencies, answers),
    ensures
        requirements(dependencies, answers) == dependency_views(dependencies).map_values(
            |d: (DependencyKind, Seq<char>, Seq<char>)| requirement_of(npm_name, d),
        ),
{
    let mapped = dependency_views(dependencies).map_values(
        |d: (DependencyKind, Seq<char>, Seq<char>)| requirement_of(npm_name, d),
    );
    assert forall|i: int| 0 <= i < dependencies.len() implies requirements(
        dependencies,
        answers,
    )[i] == mapped[i] by {
        if dependencies[i].0 is Jsr {
            let name = dependencies[i].1.name@;
            assert(names(npm_name, name, Ok(answers[i])));
            let chosen = choose|answer: Seq<char>| #[trigger] names(npm_name, name, Ok(answer));
            let first: Result<Seq<char>, Seq<char>> = Ok(answers[i]);
            let second: Result<Seq<char>, Seq<char>> = Ok(chosen);
            assert(names(npm_name, name, first) && names(npm_name, name, second));
            assert(first == second);
        }
    }
    assert(requirements(dependencies, answers) =~= mapped);
}

/// Requirements under names of their own stay as they are.
proof fn lemma_apart(dependencies: Seq<(DependencyKind, PackageReq)>, answers: Seq<Seq<char>>)
    requires
        answers.len() == dependencies.len(),
        distinct_keys(requirements(dependencies, answers)),
    ensures
        npm_requirements(dependencies, answers) == requirements(dependencies, answers),
    decreases dependencies.len(),
{
    let all = requirements(dependencies, answers);
    if dependencies.len() == 0 {
        assert(npm_requirements(dependencies, answers) =~= all);
    } else {
        let n = dependencies.len() - 1;
        let rest = requirements(dependencies.drop_last(), answers.drop_last());
        assert(rest =~= all.drop_last());
        assert forall|i: int, j: int| 0 <= i < j < rest.len() implies (#[trigger] rest[i]).0 != (
        #[trigger] rest[j]).0 by {
            assert(all[i].0 != all[j].0);
        }
        lemma_apart(dependencies.drop_last(), answers.drop_last());
        assert(!has_key(rest, all[n].0)) by {
            if has_key(rest, all[n].0) {
                let i = choose|i: int| 0 <= i < rest.len() && (#[trigger] rest[i]).0 == all[n].0;
                assert(all[i].0 != all[n].0);
            }
        }
        assert(npm_requirements(dependencies, answers) =~= all);
    }
}

/// Dependencies all have npm names if each has one.
proof fn lemma_each_named<N: Fn(&str) -> Result<String, String>>(
    npm_name: N,
    a: Seq<(DependencyKind, PackageReq)>,
    b: Seq<(DependencyKind, PackageReq)>,
)
    requires
        all_named(npm_name, a),
        dependency_views(a).to_multiset() == dependency_views(b).to_multiset(),
    ensures
        all_named(npm_name, b),
{
    let answers = choose|answers: Seq<Seq<char>>| #[trigger] named(npm_name, a, answers);
    let found = Seq::new(
        b.len(),
        |i: int| choose|answer: Seq<char>| #[trigger] names(npm_name, b[i].1.name@, Ok(answer)),
    );
    assert forall|i: int| 0 <= i < b.len() && (#[trigger] b[i]).0 is Jsr implies names(
        npm_name,
        b[i].1.name@,
        Ok(found[i]),
    ) by {
        let view = dependency_views(b)[i];
        to_multiset_contains(dependency_views(b), view);
        to_multiset_contains(dependency_views(a), view);
        let j = choose|j: int|
            0 <= j < dependency_views(a).len() && dependency_views(a)[j] == view;
        assert(a[j].0 is Jsr && a[j].1.name@ == b[i].1.name@);
        assert(names(npm_name, b[i].1.name@, Ok(answers[j])));
    }
    assert(named(npm_name, b, found));
}

/// The order of dependencies does not matter, where names are answered one way and no two
/// dependencies have the same npm name.
pub proof fn dependency_order_does_not_matter<N: Fn(&str) -> Result<String, String>>(
    npm_name: N,
    a: Seq<(DependencyKind, PackageReq)>,
    b: Seq<(DependencyKind, PackageReq)>,
    x: Result<IndexMap<String, String>, NpmTarballError>,
    y: Result<IndexMap<String, String>, NpmTarballError>,
)
    requires
        names_one_way(npm_name),
        named_apart(npm_name, a),
        dependency_views(a).to_multiset() == dependency_views(b).to_multiset(),
        created_dependencies(npm_name, a, x),
        created_dependencies(npm_name, b, y),
    ensures
        x is Ok <==> y is Ok,
        x is Ok ==> text_entries(x->Ok_0) == text_entries(y->Ok_0),
{
    if all_named(npm_name, a) {
        lemma_each_named(npm_name, a, b);
    }
    if all_named(npm_name, b) {
        lemma_each_named(npm_name, b, a);
    }
    lemma_created(npm_name, a, x);
    lemma_created(npm_name, b, y);
    if x is Ok {
        let entries = text_entries(x->Ok_0);
        let others = text_entries(y->Ok_0);
        let p = choose|p: Seq<Seq<char>>| #[trigger]
            named(npm_name, a, p) && entries.to_multiset() == npm_requirements(
                a,
                p,
            ).to_multiset();
        let q = choose|q: Seq<Seq<char>>| #[trigger]
            named(npm_name, b, q) && others.to_multiset() == npm_requirements(b, q).to_multiset();
        lemma_requirements_of(npm_name, a, p);
        lemma_requirements_of(npm_name, b, q);
        lemma_mapped_multiset(
            dependency_views(a),
            dependency_views(b),
            |d: (DependencyKind, Seq<char>, Seq<char>)| requirement_of(npm_name, d),
        );
        lemma_reordered_distinct(requirements(a, p), requirements(b, q));
        lemma_apart(a, p);
        lemma_apart(b, q);
        arrangement_is_unique(entries, others);
    }
}

/// Where names are answered one way, the dependencies come to something if all have npm names.
proof fn lemma_created<N: Fn(&str) -> Result<String, String>>(
    npm_name: N,
    dependencies: Seq<(DependencyKind, PackageReq)>,
    r: Result<IndexMap<String, String>, NpmTarballError>,
)
    requires
        names_one_way(npm_name),
        created_dependencies(npm_name, dependencies, r),
    ensures
        r is Ok <==> all_named(npm_name, dependencies),
{
    if let Err(e) = r {
        named_or_failed(npm_name, dependencies, e@);
    }
}

/// The requirements of dependencies in a row: those of the second part, and those of the first under
/// other names.
proof fn lemma_requirements_in_a_row(
    a: Seq<(DependencyKind, PackageReq)>,
    b: Seq<(DependencyKind, PackageReq)>,
    x: Seq<Seq<char>>,
    y: Seq<Seq<char>>,
    entry: (Seq<char>, Seq<char>),
)
    requires
        x.len() == a.len(),
        y.len() == b.len(),
    ensures
        npm_requirements(a + b, x + y).contains(entry) == (npm_requirements(b, y).contains(entry)
            || (npm_requirements(a, x).contains(entry) && !has_key(
            npm_requirements(b, y),
            entry.0,
        ))),
    decreases b.len(),
{
    if b.len() == 0 {
        assert(a + b =~= a);
        assert(x + y =~= x);
    } else {
        let rest = b.drop_last();
        let rest_answers = y.drop_last();
        let last = npm_requirement(b.last(), y.last());
        lemma_requirements_in_a_row(a, rest, x, rest_answers, entry);
        assert((a + b).drop_last() =~= a + rest);
        assert((x + y).drop_last() =~= x + rest_answers);
        assert((a + b).last() == b.last() && (x + y).last() == y.last());
        put_changes_one_key(npm_requirements(a + rest, x + rest_answers), last.0, last.1);
        put_changes_one_key(npm_requirements(rest, rest_answers), last.0, last.1);
        lemma_put_keys(npm_requirements(rest, rest_answers), last.0, last.1, entry.0);
        assert(entry.0 == last.0 && entry.1 == last.1 ==> entry == last);
    }
}

/// Dependencies in a row come to the npm dependencies of the second part, and those of the first
/// under other names, in the order of names. They fail as the first part does, or else as the second
/// does.
pub proof fn dependencies_in_a_row<N: Fn(&str) -> Result<String, String>>(
    npm_name: N,
    a: Seq<(DependencyKind, PackageReq)>,
    b: Seq<(DependencyKind, PackageReq)>,
    x: Result<IndexMap<String, String>, NpmTarballError>,
    y: Result<IndexMap<String, String>, NpmTarballError>,
    z: Result<IndexMap<String, String>, NpmTarballError>,
)
    requires
        names_one_way(npm_name),
        created_dependencies(npm_name, a, x),
        created_dependencies(npm_name, b, y),
        created_dependencies(npm_name, a + b, z),
    ensures
        match (x, y, z) {
            (Ok(first), Ok(second), Ok(both)) => {
                &&& sorted_keys(text_entries(both))
                &&& forall|entry: (Seq<char>, Seq<char>)| #[trigger]
                    text_entries(both).contains(entry) == (text_entries(second).contains(entry)
                        || (text_entries(first).contains(entry) && !has_key(
                        text_entries(second),
                        entry.0,
                    )))
            },
            (Err(e), _, Err(f)) => f@ == e@,
            (Ok(_), Err(e), Err(f)) => f@ == e@,
            _ => false,
        },
{
    lemma_created(npm_name, a, x);
    lemma_created(npm_name, b, y);
    lemma_created(npm_name, a + b, z);
    if all_named(npm_name, a + b) {
        let r = choose|r: Seq<Seq<char>>| #[trigger] named(npm_name, a + b, r);
        lemma_named_parts(npm_name, a, b, r);
    }
    if all_named(npm_name, a) {
        let p = choose|p: Seq<Seq<char>>| #[trigger] named(npm_name, a, p);
        if all_named(npm_name, b) {
            let q = choose|q: Seq<Seq<char>>| #[trigger] named(npm_name, b, q);
            lemma_named_together(npm_name, a, b, p, q);
        }
    }
    match (x, y, z) {
        (Ok(first), Ok(second), Ok(both)) => {
            let p = choose|p: Seq<Seq<char>>| #[trigger]
                named(npm_name, a, p) && text_entries(first).to_multiset() == npm_requirements(
                    a,
                    p,
                ).to_multiset();
            let q = choose|q: Seq<Seq<char>>| #[trigger]
                named(npm_name, b, q) && text_entries(second).to_multiset() == npm_requirements(
                    b,
                    q,
                ).to_multiset();
            let r = choose|r: Seq<Seq<char>>| #[trigger]
                named(npm_name, a + b, r) && text_entries(both).to_multiset()
                    == npm_requirements(a + b, r).to_multiset();
            lemma_named_together(npm_name, a, b, p, q);
            lemma_same_requirements(npm_name, a + b, r, p + q);
            assert forall|entry: (Seq<char>, Seq<char>)| #[trigger]
                text_entries(both).contains(entry) == (text_entries(second).contains(entry) || (
                text_entries(first).contains(entry) && !has_key(
                    text_entries(second),
                    entry.0,
                ))) by {
                lemma_requirements_in_a_row(a, b, p, q, entry);
                to_multiset_contains(text_entries(first), entry);
                to_multiset_contains(npm_requirements(a, p), entry);
                to_multiset_contains(text_entries(second), entry);
                to_multiset_contains(npm_requirements(b, q), entry);
                to_multiset_contains(text_entries(both), entry);
                to_multiset_contains(npm_requirements(a + b, r), entry);
                lemma_same_keys(text_entries(second), npm_requirements(b, q), entry.0);
            }
        },
        (Err(e), _, Err(f)) => {
            lemma_fails_in_first(npm_name, a, b, e@);
            dependencies_fail_one_way(npm_name, a + b, e@, f@);
        },
        (Ok(_), Err(e), Err(f)) => {
            lemma_fails_in_second(npm_name, a, b, e@);
            dependencies_fail_one_way(npm_name, a + b, e@, f@);
        },
        _ => {},
    }
}

/// Entries that are the same but for their order have the same keys.
proof fn lemma_same_keys(
    a: Seq<(Seq<char>, Seq<char>)>,
    b: Seq<(Seq<char>, Seq<char>)>,
    key: Seq<char>,
)
    requires
        a.to_multiset() == b.to_multiset(),
    ensures
        has_key(a, key) == has_key(b, key),
{
    if has_key(a, key) {
        let i = choose|i: int| 0 <= i < a.len() && (#[trigger] a[i]).0 == key;
        to_multiset_contains(a, a[i]);
        to_multiset_contains(b, a[i]);
        let j = choose|j: int| 0 <= j < b.len() && b[j] == a[i];
        assert(b[j].0 == key);
    }
    if has_key(b, key) {
        let i = choose|i: int| 0 <= i < b.len() && (#[trigger] b[i]).0 == key;
        to_multiset_contains(b, b[i]);
        to_multiset_contains(a, b[i]);
        let j = choose|j: int| 0 <= j < a.len() && a[j] == b[i];
        assert(a[j].0 == key);
    }
}

/// What fails fails with more behind it.
proof fn lemma_fails_in_first<N: Fn(&str) -> Result<String, String>>(
    npm_name: N,
    a: Seq<(DependencyKind, PackageReq)>,
    b: Seq<(DependencyKind, PackageReq)>,
    error: ErrorView,
)
    requires
        dependency_fails(npm_name, a, error),
    ensures
        dependency_fails(npm_name, a + b, error),
{
    let (failed, cause) = choose|failed: int, cause: Seq<char>|
        {
            &&& #[trigger] rejected(npm_name, a, failed, cause)
            &&& error == (ErrorView::InvalidName { name: a[failed].1.name@, cause })
        };
    assert((a + b).take(failed) =~= a.take(failed));
    assert(rejected(npm_name, a + b, failed, cause));
}

/// What fails fails behind what does not.
proof fn lemma_fails_in_second<N: Fn(&str) -> Result<String, String>>(
    npm_name: N,
    a: Seq<(DependencyKind, PackageReq)>,
    b: Seq<(DependencyKind, PackageReq)>,
    error: ErrorView,
)
    requires
        all_named(npm_name, a),
        dependency_fails(npm_name, b, error),
    ensures
        dependency_fails(npm_name, a + b, error),
{
    let (failed, cause) = choose|failed: int, cause: Seq<char>|
        {
            &&& #[trigger] rejected(npm_name, b, failed, cause)
            &&& error == (ErrorView::InvalidName { name: b[failed].1.name@, cause })
        };
    let x = choose|x: Seq<Seq<char>>| #[trigger] named(npm_name, a, x);
    let y = choose|y: Seq<Seq<char>>| #[trigger] named(npm_name, b.take(failed), y);
    let n = a.len() + failed;
    lemma_named_together(npm_name, a, b.take(failed), x, y);
    assert((a + b).take(n) =~= a + b.take(failed));
    assert((a + b)[n] == b[failed]);
    assert(rejected(npm_name, a + b, n, cause));
}

/// Dependencies that are listed twice come to what they come to once.
pub proof fn repeated_dependencies_change_nothing<N: Fn(&str) -> Result<String, String>>(
    npm_name: N,
    dependencies: Seq<(DependencyKind, PackageReq)>,
    once: Result<IndexMap<String, String>, NpmTarballError>,
    twice: Result<IndexMap<String, String>, NpmTarballError>,
)
    requires
        names_one_way(npm_name),
        created_dependencies(npm_name, dependencies, once),
        created_dependencies(npm_name, dependencies + dependencies, twice),
    ensures
        match (once, twice) {
            (Ok(a), Ok(b)) => text_entries(a) == text_entries(b),
            (Err(e), Err(f)) => e@ == f@,
            _ => false,
        },
{
    dependencies_in_a_row(npm_name, dependencies, dependencies, once, once, twice);
    if once is Ok {
        membership_decides(text_entries(once->Ok_0), text_entries(twice->Ok_0));
    }
}

/// Where names are answered one way, there is one way for dependencies to become npm dependencies.
pub proof fn dependencies_become_one_way<N: Fn(&str) -> Result<String, String>>(
    npm_name: N,
    dependencies: Seq<(DependencyKind, PackageReq)>,
    a: Seq<(Seq<char>, Seq<char>)>,
    b: Seq<(Seq<char>, Seq<char>)>,
)
    requires
        names_one_way(npm_name),
        dependencies_become(npm_name, dependencies, a),
        dependencies_become(npm_name, dependencies, b),
    ensures
        a == b,
{
    let x = choose|x: Seq<Seq<char>>| #[trigger]
        named(npm_name, dependencies, x) && a.to_multiset() == npm_requirements(
            dependencies,
            x,
        ).to_multiset();
    let y = choose|y: Seq<Seq<char>>| #[trigger]
        named(npm_name, dependencies, y) && b.to_multiset() == npm_requirements(
            dependencies,
            y,
        ).to_multiset();
    lemma_same_requirements(npm_name, dependencies, x, y);
    arrangement_is_unique(a, b);
}

/// A dependency is listed with its version requirement as it is written, under its own name, if it is
/// one on npm, and under the name that `f` gives, if it is one on the registry, unless a later one
/// has that name.
pub proof fn every_requirement_is_listed<N: Fn(&str) -> Result<String, String>>(
    npm_name: N,
    f: spec_fn(Seq<char>) -> Result<Seq<char>, Seq<char>>,
    dependencies: Seq<(DependencyKind, PackageReq)>,
    m: IndexMap<String, String>,
    i: int,
    name: Seq<char>,
)
    requires
        names_as(npm_name, f),
        created_dependencies(npm_name, dependencies, Ok(m)),
        0 <= i < dependencies.len(),
        match dependencies[i].0 {
            DependencyKind::Npm => dependencies[i].1.name@ == name,
            DependencyKind::Jsr => f(dependencies[i].1.name@) == Ok::<Seq<char>, Seq<char>>(name),
        },
        forall|j: int|
            i < j < dependencies.len() ==> match (#[trigger] dependencies[j]).0 {
                DependencyKind::Npm => dependencies[j].1.name@ != name,
                DependencyKind::Jsr => f(dependencies[j].1.name@) != Ok::<Seq<char>, Seq<char>>(
                    name,
                ),
            },
    ensures
        text_entries(m).contains((name, dependencies[i].1.version_req@)),
{
    let entry = (name, dependencies[i].1.version_req@);
    let answers = lemma_listed(npm_name, dependencies, m, entry);
    lemma_answers(npm_name, f, dependencies, answers);
    assert(settles(dependencies, answers, i));
}

/// What is listed is the version requirement of a dependency as it is written: of the last one that
/// has the name, as its own, if it is one on npm, or as the one that `f` gives, if it is one on the
/// registry.
pub proof fn only_requirements_are_listed<N: Fn(&str) -> Result<String, String>>(
    npm_name: N,
    f: spec_fn(Seq<char>) -> Result<Seq<char>, Seq<char>>,
    dependencies: Seq<(DependencyKind, PackageReq)>,
    m: IndexMap<String, String>,
    entry: (Seq<char>, Seq<char>),
)
    requires
        names_as(npm_name, f),
        created_dependencies(npm_name, dependencies, Ok(m)),
        text_entries(m).contains(entry),
    ensures
        exists|i: int|
            {
                &&& 0 <= i < dependencies.len()
                &&& (#[trigger] dependencies[i]).1.version_req@ == entry.1
                &&& match dependencies[i].0 {
                    DependencyKind::Npm => dependencies[i].1.name@ == entry.0,
                    DependencyKind::Jsr => f(dependencies[i].1.name@) == Ok::<
                        Seq<char>,
                        Seq<char>,
                    >(entry.0),
                }
                &&& forall|j: int|
                    i < j < dependencies.len() ==> match (#[trigger] dependencies[j]).0 {
                        DependencyKind::Npm => dependencies[j].1.name@ != entry.0,
                        DependencyKind::Jsr => f(dependencies[j].1.name@) != Ok::<
                            Seq<char>,
                            Seq<char>,
                        >(entry.0),
                    }
            },
{
    let answers = lemma_listed(npm_name, dependencies, m, entry);
    lemma_answers(npm_name, f, dependencies, answers);
    let i = choose|i: int| #[trigger]
        settles(dependencies, answers, i) && entry == npm_requirement(dependencies[i], answers[i]);
    assert(dependencies[i].1.version_req@ == entry.1);
    assert forall|j: int| i < j < dependencies.len() implies match (#[trigger] dependencies[j]).0 {
        DependencyKind::Npm => dependencies[j].1.name@ != entry.0,
        DependencyKind::Jsr => f(dependencies[j].1.name@) != Ok::<Seq<char>, Seq<char>>(entry.0),
    } by {
        assert(npm_requirement(dependencies[j], answers[j]).0 != entry.0);
    }
}

/// The npm dependencies are there if `f` gives a name to every dependency on the registry; else they
/// fail with the first to which it gives none, and with what it gives instead.
pub proof fn first_nameless_dependency_fails<N: Fn(&str) -> Result<String, String>>(
    npm_name: N,
    f: spec_fn(Seq<char>) -> Result<Seq<char>, Seq<char>>,
    dependencies: Seq<(DependencyKind, PackageReq)>,
    r: Result<IndexMap<String, String>, NpmTarballError>,
)
    requires
        names_as(npm_name, f),
        created_dependencies(npm_name, dependencies, r),
    ensures
        match r {
            Ok(_) => forall|i: int|
                0 <= i < dependencies.len() && (#[trigger] dependencies[i]).0 is Jsr ==> f(
                    dependencies[i].1.name@,
                ) is Ok,
            Err(e) => exists|i: int|
                {
                    &&& 0 <= i < dependencies.len()
                    &&& (#[trigger] dependencies[i]).0 is Jsr
                    &&& f(dependencies[i].1.name@) is Err
                    &&& e@ == (ErrorView::InvalidName {
                        name: dependencies[i].1.name@,
                        cause: f(dependencies[i].1.name@)->Err_0,
                    })
                    &&& forall|j: int|
                        0 <= j < i && (#[trigger] dependencies[j]).0 is Jsr ==> f(
                            dependencies[j].1.name@,
                        ) is Ok
                },
        },
{
    match r {
        Ok(m) => {
            let answers = choose|answers: Seq<Seq<char>>| #[trigger]
                named(npm_name, dependencies, answers);
            lemma_answers(npm_name, f, dependencies, answers);
        },
        Err(e) => {
            let (i, cause) = choose|i: int, cause: Seq<char>|
                {
                    &&& #[trigger] rejected(npm_name, dependencies, i, cause)
                    &&& e@ == (ErrorView::InvalidName { name: dependencies[i].1.name@, cause })
                };
            let answers = choose|answers: Seq<Seq<char>>| #[trigger]
                named(npm_name, dependencies.take(i), answers);
            lemma_answers(npm_name, f, dependencies.take(i), answers);
            assert(f(dependencies[i].1.name@) == Err::<Seq<char>, Seq<char>>(cause));
            assert forall|j: int| 0 <= j < i && (#[trigger] dependencies[j]).0 is Jsr implies f(
                dependencies[j].1.name@,
            ) is Ok by {
                assert(dependencies.take(i)[j] == dependencies[j]);
            }
        },
    }
}

/// The answers about names are those that `f` gives.
pub(crate) proof fn lemma_answers<N: Fn(&str) -> Result<String, String>>(
    npm_name: N,
    f: spec_fn(Seq<char>) -> Result<Seq<char>, Seq<char>>,
    dependencies: Seq<(DependencyKind, PackageReq)>,
    answers: Seq<Seq<char>>,
)
    requires
        names_as(npm_name, f),
        named(npm_name, dependencies, answers),
    ensures
        answers.len() == dependencies.len(),
        forall|i: int|
            0 <= i < dependencies.len() && (#[trigger] dependencies[i]).0 is Jsr ==> f(
                dependencies[i].1.name@,
            ) == Ok::<Seq<char>, Seq<char>>(answers[i]),
{
    assert forall|i: int|
        0 <= i < dependencies.len() && (#[trigger] dependencies[i]).0 is Jsr implies f(
        dependencies[i].1.name@,
    ) == Ok::<Seq<char>, Seq<char>>(answers[i]) by {
        assert(names(npm_name, dependencies[i].1.name@, Ok(answers[i])));
    }
}

/// What is listed is what is settled.
proof fn lemma_listed<N: Fn(&str) -> Result<String, String>>(
    npm_name: N,
    dependencies: Seq<(DependencyKind, PackageReq)>,
    m: IndexMap<String, String>,
    entry: (Seq<char>, Seq<char>),
) -> (answers: Seq<Seq<char>>)
    requires
        created_dependencies(npm_name, dependencies, Ok(m)),
    ensures
        named(npm_name, dependencies, answers),
        text_entries(m).contains(entry) == settled(dependencies, answers, entry),
{
    dependencies_hold_last_requirements(npm_name, dependencies, text_entries(m));
    let answers = choose|answers: Seq<Seq<char>>|
        {
            &&& #[trigger] named(npm_name, dependencies, answers)
            &&& forall|entry: (Seq<char>, Seq<char>)| #[trigger]
                text_entries(m).contains(entry) == settled(dependencies, answers, entry)
        };
    assert(text_entries(m).contains(entry) == settled(dependencies, answers, entry));
    answers
}

/// The npm dependencies are in the order of their names.
pub proof fn requirements_are_sorted<N: Fn(&str) -> Result<String, String>>(
    npm_name: N,
    dependencies: Seq<(DependencyKind, PackageReq)>,
    m: IndexMap<String, String>,
    i: int,
    j: int,
)
    requires
        created_dependencies(npm_name, dependencies, Ok(m)),
        0 <= i < j < text_entries(m).len(),
    ensures
        precedes(text_entries(m)[i].0, text_entries(m)[j].0),
{
}

} // verus!
