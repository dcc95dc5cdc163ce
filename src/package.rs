//! Choosing, per declared package, where its archive comes from.
use vstd::prelude::*;

use crate::config::PackageConfig;

verus! {

/// What the installer does with one declared package.
#[derive(PartialEq, Eq, Structural, Clone, Copy, Debug)]
pub enum InstallAction {
    /// Fetch a prebuilt signed archive from the remote repository.
    RemotePrebuilt,
    /// Verify and extract an archive built in the local build tree.
    Build,
    /// Install nothing.
    Ignore,
}

/// The action for a package that names no explicit build rule.
pub open spec fn spec_default_action(repo_binary: bool, local_source: bool) -> InstallAction {
    if repo_binary || !local_source {
        InstallAction::RemotePrebuilt
    } else {
        InstallAction::Build
    }
}

/// The action for `package`: an explicit rule wins over the global default;
/// with no local build source nothing is built.
pub open spec fn spec_classify(
    package: PackageConfig,
    repo_binary: bool,
    local_source: bool,
) -> InstallAction {
    match package {
        PackageConfig::Build(rule) => {
            if rule@ == "ignore"@ {
                InstallAction::Ignore
            } else if rule@ == "binary"@ {
                InstallAction::RemotePrebuilt
            } else if rule@ == "recipe"@ || rule@ == "source"@ {
                if local_source {
                    InstallAction::Build
                } else {
                    InstallAction::RemotePrebuilt
                }
            } else {
                spec_default_action(repo_binary, local_source)
            }
        },
        _ => spec_default_action(repo_binary, local_source),
    }
}

/// With prebuilt packages preferred, a package that names no rule is
/// fetched prebuilt; a package whose rule is "binary" is fetched prebuilt
/// whatever the global default; a package whose rule is "ignore" is left
/// alone.
pub proof fn lemma_classify_rules(package: PackageConfig, repo_binary: bool, local_source: bool)
    ensures
        !(package is Build) && repo_binary ==> spec_classify(package, repo_binary, local_source)
            == InstallAction::RemotePrebuilt,
        package matches PackageConfig::Build(rule) && rule@ == "binary"@ ==> spec_classify(
            package,
            repo_binary,
            local_source,
        ) == InstallAction::RemotePrebuilt,
        package matches PackageConfig::Build(rule) && rule@ == "ignore"@ ==> spec_classify(
            package,
            repo_binary,
            local_source,
        ) == InstallAction::Ignore,
{
    reveal_strlit("binary");
    reveal_strlit("ignore");
    assert("binary"@[0] != "ignore"@[0]);
}

/// Whether `s` holds exactly the characters of `lit`.
pub fn string_is(s: &String, lit: &str) -> (r: bool)
    ensures
        r == (s@ == lit@),
{
    let owned = String::from_str(lit);
    *s == owned
}

/// Classifies one package; `repo_binary` is the global "prefer prebuilt"
/// setting and `local_source` tells whether a local build tree was given.
pub fn classify(package: &PackageConfig, repo_binary: bool, local_source: bool) -> (r:
    InstallAction)
    ensures
        r == spec_classify(*package, repo_binary, local_source),
{
    let default = if repo_binary || !local_source {
        InstallAction::RemotePrebuilt
    } else {
        InstallAction::Build
    };
    match package {
        PackageConfig::Build(rule) => {
            if string_is(rule, "ignore") {
                InstallAction::Ignore
            } else if string_is(rule, "binary") {
                InstallAction::RemotePrebuilt
            } else if string_is(rule, "recipe") || string_is(rule, "source") {
                if local_source {
                    InstallAction::Build
                } else {
                    InstallAction::RemotePrebuilt
                }
            } else {
                default
            }
        },
        _ => default,
    }
}

/// The names of the entries of `packages` whose action is `Build`, in order.
pub open spec fn spec_build_names(
    packages: Seq<(String, PackageConfig)>,
    repo_binary: bool,
) -> Seq<Seq<char>>
    decreases packages.len(),
{
    if packages.len() == 0 {
        Seq::empty()
    } else {
        let rest = spec_build_names(packages.drop_last(), repo_binary);
        if spec_classify(packages.last().1, repo_binary, true) == InstallAction::Build {
            rest.push(packages.last().0@)
        } else {
            rest
        }
    }
}

/// The packages that a local build tree has to build, in declaration order.
pub fn packages_to_build(packages: &Vec<(String, PackageConfig)>, repo_binary: bool) -> (r: Vec<
    String,
>)
    ensures
        r@.map_values(|s: String| s@) == spec_build_names(packages@, repo_binary),
{
    let mut r: Vec<String> = Vec::new();
    let mut i: usize = 0;
    while i < packages.len()
        invariant
            i <= packages@.len(),
            r@.map_values(|s: String| s@) == spec_build_names(packages@.take(i as int), repo_binary),
        decreases packages@.len() - i,
    {
        proof {
            assert(packages@.take(i + 1).drop_last() =~= packages@.take(i as int));
        }
        if classify(&packages[i].1, repo_binary, true) == InstallAction::Build {
            r.push(packages[i].0.clone());
            proof {
                assert(r@.map_values(|s: String| s@) =~= spec_build_names(
                    packages@.take(i as int),
                    repo_binary,
                ).push(packages@[i as int].0@));
            }
        }
        i = i + 1;
    }
    proof {
        assert(packages@.take(i as int) =~= packages@);
    }
    r
}

/// The action for each entry of `packages`, in order.
pub fn install_actions(
    packages: &Vec<(String, PackageConfig)>,
    repo_binary: bool,
    local_source: bool,
) -> (r: Vec<InstallAction>)
    ensures
        r@.len() == packages@.len(),
        forall|i: int|
            0 <= i < r@.len() ==> r@[i] == spec_classify(packages@[i].1, repo_binary, local_source),
{
    let mut r: Vec<InstallAction> = Vec::new();
    let mut i: usize = 0;
    while i < packages.len()
        invariant
            i <= packages@.len(),
            r@.len() == i,
            forall|j: int|
                0 <= j < i ==> r@[j] == spec_classify(packages@[j].1, repo_binary, local_source),
        decreases packages@.len() - i,
    {
        r.push(classify(&packages[i].1, repo_binary, local_source));
        i = i + 1;
    }
    r
}

/// Whether `package` asks for anything beyond the defaults, and so for the
/// local build tree's signing key.
pub open spec fn spec_needs_local_key(package: PackageConfig) -> bool {
    match package {
        PackageConfig::Empty => false,
        PackageConfig::Spec { version, git, path, pkg_path } => !(version is None && git is None
            && path is None && pkg_path is None),
        PackageConfig::Build(_) => true,
    }
}

/// Whether a missing signing key of the local build tree is fatal: it is
/// when some package asks for more than the defaults.
pub fn requires_cookbook_key(packages: &Vec<(String, PackageConfig)>) -> (r: bool)
    ensures
        r == exists|i: int| 0 <= i < packages@.len() && spec_needs_local_key(#[trigger] packages@[i].1),
{
    let mut i: usize = 0;
    while i < packages.len()
        invariant
            i <= packages@.len(),
            forall|j: int| 0 <= j < i ==> !spec_needs_local_key(#[trigger] packages@[j].1),
        decreases packages@.len() - i,
    {
        let needs = match &packages[i].1 {
            PackageConfig::Empty => false,
            PackageConfig::Spec { version, git, path, pkg_path } => !(version.is_none()
                && git.is_none() && path.is_none() && pkg_path.is_none()),
            PackageConfig::Build(_) => true,
        };
        if needs {
            return true;
        }
        i = i + 1;
    }
    false
}


/// Every dependency of package `x` that is not installed lies in `before`.
pub open spec fn deps_within(
    deps: Seq<Vec<usize>>,
    installed: Seq<bool>,
    x: usize,
    before: Seq<usize>,
) -> bool {
    forall|j: int|
        0 <= j < deps[x as int]@.len() ==> installed[deps[x as int]@[j] as int] || before.contains(
            #[trigger] deps[x as int]@[j],
        )
}

/// Package `x` depends on a member of `within`.
pub open spec fn has_dep_in(deps: Seq<Vec<usize>>, x: usize, within: Seq<usize>) -> bool {
    exists|j: int| 0 <= j < deps[x as int]@.len() && within.contains(#[trigger] deps[x as int]@[j])
}

/// Every dependency names a package.
pub open spec fn deps_in_range(deps: Seq<Vec<usize>>) -> bool {
    forall|x: int, j: int|
        0 <= x < deps.len() && 0 <= j < deps[x]@.len() ==> #[trigger] deps[x]@[j] < deps.len()
}

fn all_deps_done(ds: &Vec<usize>, done: &Vec<bool>) -> (r: bool)
    requires
        forall|j: int| 0 <= j < ds@.len() ==> #[trigger] ds@[j] < done@.len(),
    ensures
        r == forall|j: int| 0 <= j < ds@.len() ==> done@[#[trigger] ds@[j] as int],
{
    let mut j: usize = 0;
    while j < ds.len()
        invariant
            j <= ds@.len(),
            forall|k: int| 0 <= k < ds@.len() ==> #[trigger] ds@[k] < done@.len(),
            forall|k: int| 0 <= k < j ==> done@[#[trigger] ds@[k] as int],
        decreases ds@.len() - j,
    {
        if !done[ds[j]] {
            return false;
        }
        j = j + 1;
    }
    true
}

/// An order in which to install the packages `0..n` that are not installed,
/// each after every dependency of its own that is not installed; `deps[x]`
/// lists the packages that `x` depends on. Where no such order exists, the
/// error lists the packages left over: each of them depends on another of
/// them that is not installed, so they hold a dependency cycle.
pub fn install_order(deps: &Vec<Vec<usize>>, installed: &Vec<bool>) -> (r: Result<Vec<usize>, Vec<usize>>)
    requires
        installed@.len() == deps@.len(),
        deps_in_range(deps@),
    ensures
        r matches Ok(order) ==> {
            &&& forall|i: int, k: int| 0 <= i < k < order@.len() ==> order@[i] != order@[k]
            &&& forall|x: usize| #[trigger] order@.contains(x) <==> (x < deps@.len() && !installed@[x as int])
            &&& forall|i: int| 0 <= i < order@.len() ==> deps_within(deps@, installed@, #[trigger] order@[i], order@.take(i))
        },
        r matches Err(stuck) ==> {
            &&& stuck@.len() > 0
            &&& forall|i: int| 0 <= i < stuck@.len() ==> #[trigger] stuck@[i] < deps@.len() && !installed@[stuck@[i] as int]
            &&& forall|i: int| 0 <= i < stuck@.len() ==> has_dep_in(deps@, #[trigger] stuck@[i], stuck@)
        },
{
    let n = deps.len();
    let mut done: Vec<bool> = Vec::new();
    let mut x: usize = 0;
    while x < n
        invariant
            x <= n,
            n == deps@.len(),
            installed@.len() == n,
            done@.len() == x,
            forall|y: int| 0 <= y < x ==> done@[y] == installed@[y],
        decreases n - x,
    {
        done.push(installed[x]);
        x = x + 1;
    }
    let mut order: Vec<usize> = Vec::new();
    let mut progress = true;
    while progress
        invariant
            n == deps@.len(),
            installed@.len() == n,
            done@.len() == n,
            deps_in_range(deps@),
            order@.len() <= n,
            forall|y: usize| #![trigger done@[y as int]] #![trigger order@.contains(y)]
                y < n ==> (done@[y as int] <==> (installed@[y as int] || order@.contains(y))),
            forall|i: int| 0 <= i < order@.len() ==> #[trigger] order@[i] < n && !installed@[order@[i] as int],
            forall|i: int, k: int| 0 <= i < k < order@.len() ==> order@[i] != order@[k],
            forall|i: int| 0 <= i < order@.len() ==> deps_within(deps@, installed@, #[trigger] order@[i], order@.take(i)),
            !progress ==> forall|z: usize| z < n && !done@[z as int] ==> !(forall|j: int| 0 <= j < deps@[z as int]@.len() ==> done@[#[trigger] deps@[z as int]@[j] as int]),
        decreases 2 * (n - order@.len()) + if progress { 1int } else { 0int },
    {
        let ghost start_len = order@.len();
        progress = false;
        let mut y: usize = 0;
        while y < n
            invariant
                n == deps@.len(),
                installed@.len() == n,
                done@.len() == n,
                deps_in_range(deps@),
                y <= n,
                order@.len() <= n,
                forall|z: usize| #![trigger done@[z as int]] #![trigger order@.contains(z)]
                    z < n ==> (done@[z as int] <==> (installed@[z as int] || order@.contains(z))),
                forall|i: int| 0 <= i < order@.len() ==> #[trigger] order@[i] < n && !installed@[order@[i] as int],
                forall|i: int, k: int| 0 <= i < k < order@.len() ==> order@[i] != order@[k],
                forall|i: int| 0 <= i < order@.len() ==> deps_within(deps@, installed@, #[trigger] order@[i], order@.take(i)),
                progress ==> order@.len() > start_len,
                !progress ==> order@.len() == start_len,
                !progress ==> forall|z: usize| z < y && !done@[z as int] ==> !(forall|j: int| 0 <= j < deps@[z as int]@.len() ==> done@[#[trigger] deps@[z as int]@[j] as int]),
            decreases n - y,
        {
            proof {
                assert forall|j: int| 0 <= j < deps@[y as int]@.len() implies #[trigger] deps@[y as int]@[j] < done@.len() by {
                    assert(deps@[y as int]@[j] < deps@.len());
                }
            }
            if !done[y] && all_deps_done(&deps[y], &done) {
                let ghost before = order@;
                proof {
                    assert(!before.contains(y));
                    assert forall|j: int| 0 <= j < deps@[y as int]@.len() implies installed@[deps@[y as int]@[j] as int]
                        || before.contains(#[trigger] deps@[y as int]@[j]) by {
                        assert(done@[deps@[y as int]@[j] as int]);
                        assert(deps@[y as int]@[j] < n);
                    }
                }
                order.push(y);
                done.set(y, true);
                progress = true;
                proof {
                    assert(order@.take(before.len() as int) =~= before);
                    assert forall|i: int| 0 <= i < order@.len() implies deps_within(deps@, installed@, #[trigger] order@[i], order@.take(i)) by {
                        if i < before.len() {
                            assert(order@.take(i) =~= before.take(i));
                        }
                    }
                    assert forall|z: usize| z < n implies (done@[z as int] <==> (installed@[z as int] || order@.contains(z))) by {
                        if z != y {
                            if order@.contains(z) {
                                let k = choose|k: int| 0 <= k < order@.len() && order@[k] == z;
                                assert(before[k] == z);
                            }
                            if before.contains(z) {
                                let k = choose|k: int| 0 <= k < before.len() && before[k] == z;
                                assert(order@[k] == z);
                            }
                        } else {
                            assert(order@[before.len() as int] == y);
                        }
                    }
                    assert forall|i: int, k: int| 0 <= i < k < order@.len() implies order@[i] != order@[k] by {
                        if k == before.len() {
                            assert(before[i] == order@[i]);
                        }
                    }
                    lemma_distinct_bounded(order@, n);
                }
            }
            y = y + 1;
        }
    }
    let stuck = unset_positions(&done);
    if stuck.len() == 0 {
        proof {
            assert forall|w: usize| #[trigger] order@.contains(w) <==> (w < deps@.len() && !installed@[w as int]) by {
                if w < n && !installed@[w as int] {
                    if !done@[w as int] {
                        assert(stuck@.contains(w));
                    }
                }
                if order@.contains(w) {
                    let k = choose|k: int| 0 <= k < order@.len() && order@[k] == w;
                }
            }
        }
        Ok(order)
    } else {
        proof {
            assert forall|i: int| 0 <= i < stuck@.len() implies has_dep_in(deps@, #[trigger] stuck@[i], stuck@) by {
                let s = stuck@[i];
                assert(!done@[s as int]);
                assert(!(forall|j: int| 0 <= j < deps@[s as int]@.len() ==> done@[#[trigger] deps@[s as int]@[j] as int]));
                let j = choose|j: int| 0 <= j < deps@[s as int]@.len() && !done@[#[trigger] deps@[s as int]@[j] as int];
                assert(deps@[s as int]@[j] < n);
                assert(stuck@.contains(deps@[s as int]@[j]));
            }
            assert forall|i: int| 0 <= i < stuck@.len() implies #[trigger] stuck@[i] < deps@.len() && !installed@[stuck@[i] as int] by {
                assert(!done@[stuck@[i] as int]);
            }
        }
        Err(stuck)
    }
}

/// The positions of `flags` that are not set, in order.
fn unset_positions(flags: &Vec<bool>) -> (r: Vec<usize>)
    ensures
        forall|i: int| 0 <= i < r@.len() ==> #[trigger] r@[i] < flags@.len() && !flags@[r@[i] as int],
        forall|w: usize| w < flags@.len() && !flags@[w as int] ==> #[trigger] r@.contains(w),
{
    let mut r: Vec<usize> = Vec::new();
    let mut z: usize = 0;
    while z < flags.len()
        invariant
            z <= flags@.len(),
            forall|i: int| 0 <= i < r@.len() ==> #[trigger] r@[i] < z && !flags@[r@[i] as int],
            forall|w: usize| w < z && !flags@[w as int] ==> #[trigger] r@.contains(w),
        decreases flags@.len() - z,
    {
        if !flags[z] {
            let ghost before = r@;
            r.push(z);
            proof {
                assert(r@[before.len() as int] == z);
                assert forall|w: usize| w < z + 1 && !flags@[w as int] implies #[trigger] r@.contains(w) by {
                    if w < z {
                        assert(before.contains(w));
                        let k = choose|k: int| 0 <= k < before.len() && before[k] == w;
                        assert(r@[k] == w);
                    }
                }
            }
        }
        z = z + 1;
    }
    r
}

/// A sequence of distinct numbers below `n` has at most `n` elements.
proof fn lemma_distinct_bounded(s: Seq<usize>, n: usize)
    requires
        forall|i: int, k: int| 0 <= i < k < s.len() ==> s[i] != s[k],
        forall|i: int| 0 <= i < s.len() ==> #[trigger] s[i] < n,
    ensures
        s.len() <= n,
{
    let set = s.to_set();
    assert(set.subset_of(Set::new(|x: usize| x < n)));
    vstd::set_lib::lemma_int_range(0, n as int);
    s.unique_seq_to_set();
    let ints = set.map(|x: usize| x as int);
    vstd::set_lib::lemma_map_size(set, ints, |x: usize| x as int);
    assert(ints.subset_of(vstd::set_lib::set_int_range(0, n as int)));
    vstd::set_lib::lemma_len_subset(ints, vstd::set_lib::set_int_range(0, n as int));
}

} // verus!
