//! What the manifests of packages say.

use crate::command::string_option;
use crate::coverage::text_option;
use crate::paths::{paths_equal, same_path};
use crate::text::{
    lemma_text_lt_irreflexive, lemma_text_lt_total, lemma_text_lt_transitive, text_eq, text_less,
    text_lt, texts,
};
use crate::tree::{item_models, parse_toml, toml_document, Tree, TreeModel};
use crate::versions::{required_version, version_from_dependency_req};
use vstd::prelude::*;

verus! {

/// Whether a manifest says that it is one of a fuzz project.
pub open spec fn says_fuzz(manifest: TreeModel) -> bool {
    match manifest.at("package"@) {
        Some(package) => match package.at("metadata"@) {
            Some(metadata) => match metadata.at("cargo-fuzz"@) {
                Some(flag) => flag.truth() == Some(true),
                None => false,
            },
            None => false,
        },
        None => false,
    }
}

pub fn is_fuzz_manifest(manifest: &Tree) -> (r: bool)
    ensures
        r == says_fuzz(manifest@),
{
    match manifest.get("package") {
        Some(package) => match package.get("metadata") {
            Some(metadata) => match metadata.get("cargo-fuzz") {
                Some(flag) => match flag.as_bool() {
                    Some(b) => b,
                    None => false,
                },
                None => false,
            },
            None => false,
        },
        None => false,
    }
}

/// The names of the binaries in a list.
pub open spec fn bin_names(bins: Seq<TreeModel>) -> Seq<Seq<char>>
    decreases bins.len(),
{
    if bins.len() == 0 {
        Seq::empty()
    } else {
        match bins.last().text_at("name"@) {
            Some(name) => bin_names(bins.drop_last()).push(name),
            None => bin_names(bins.drop_last()),
        }
    }
}

/// The names do not go down.
pub open spec fn sorted_texts(s: Seq<Seq<char>>) -> bool {
    forall|i: int, j: int| 0 <= i < j < s.len() ==> !text_lt(#[trigger] s[j], #[trigger] s[i])
}

fn insert_sorted(names: &mut Vec<String>, name: String)
    requires
        sorted_texts(texts(old(names)@)),
    ensures
        sorted_texts(texts(final(names)@)),
        texts(final(names)@).to_multiset() == texts(old(names)@).to_multiset().insert(name@),
{
    let ghost before = texts(names@);
    let ghost new = name@;
    let mut i: usize = names.len();
    while i > 0 && text_less(name.as_str(), names[i - 1].as_str())
        invariant
            i <= names@.len(),
            before == texts(names@),
            new == name@,
            forall|k: int| i <= k < before.len() ==> text_lt(new, #[trigger] before[k]),
        decreases i,
    {
        assert(before[i - 1] == names@[i - 1]@);
        i = i - 1;
    }
    proof {
        if i > 0 {
            assert(before[i - 1] == names@[i - 1]@);
        }
        assert forall|k: int| 0 <= k < i implies !text_lt(new, #[trigger] before[k]) by {
            if k < i - 1 && text_lt(new, before[k]) {
                lemma_text_lt_total(before[k], before[i - 1]);
                if text_lt(before[k], before[i - 1]) {
                    lemma_text_lt_transitive(new, before[k], before[i - 1]);
                }
            }
        }
    }
    names.insert(i, name);
    proof {
        let after = texts(names@);
        assert(after =~= before.insert(i as int, new));
        vstd::seq_lib::to_multiset_insert(before, i as int, new);
        assert forall|a: int, b: int| 0 <= a < b < after.len() implies !text_lt(
            #[trigger] after[b],
            #[trigger] after[a],
        ) by {
            if b == i {
                assert(after[a] == before[a]);
            } else if a == i {
                let other = before[b - 1];
                if text_lt(other, new) {
                    lemma_text_lt_transitive(other, new, other);
                    lemma_text_lt_irreflexive(other);
                }
            } else {
                let x = if a < i { a } else { a - 1 };
                let y = if b < i { b } else { b - 1 };
                assert(!text_lt(before[y], before[x]));
            }
        }
    }
}

/// The names of the binaries of a package, sorted.
pub fn collect_targets(manifest: &Tree) -> (r: Vec<String>)
    ensures
        sorted_texts(texts(r@)),
        texts(r@).to_multiset() == bin_names(manifest@.items_at("bin"@)).to_multiset(),
{
    let mut names: Vec<String> = Vec::new();
    let ghost all = manifest@.items_at("bin"@);
    assert(texts(names@) =~= Seq::empty());
    if let Some(bins) = manifest.items_at("bin") {
        let n = bins.len();
        let mut i: usize = 0;
        assert(all.take(0).len() == 0);
        while i < n
            invariant
                all == item_models(bins@),
                n == bins@.len(),
                i <= n,
                sorted_texts(texts(names@)),
                texts(names@).to_multiset() == bin_names(all.take(i as int)).to_multiset(),
            decreases n - i,
        {
            broadcast use vstd::seq_lib::group_to_multiset_ensures;

            assert(all[i as int] == bins@[i as int]@);
            assert(all.take(i + 1).drop_last() =~= all.take(i as int));
            if let Some(name) = bins[i].text_at("name") {
                insert_sorted(&mut names, name.to_owned());
            }
            i = i + 1;
        }
        assert(all.take(n as int) =~= all);
    } else {
        assert(bin_names(all) =~= Seq::empty());
    }
    names
}

/// The version that a lock file has for a package: that of the first entry of the package that has
/// one.
pub open spec fn locked_version(packages: Seq<TreeModel>, name: Seq<char>) -> Option<Seq<char>>
    decreases packages.len(),
{
    if packages.len() == 0 {
        None
    } else if packages[0].text_at("name"@) == Some(name) && packages[0].text_at("version"@)
        is Some {
        packages[0].text_at("version"@)
    } else {
        locked_version(packages.drop_first(), name)
    }
}

/// The version that a lock file has for a package.
pub fn find_locked_version(lock: &Tree, name: &str) -> (r: Option<String>)
    ensures
        r is Some <==> locked_version(lock@.items_at("package"@), name@) is Some,
        r matches Some(version) ==> Some(version@) == locked_version(
            lock@.items_at("package"@),
            name@,
        ),
{
    let ghost all = lock@.items_at("package"@);
    if let Some(packages) = lock.items_at("package") {
        let n = packages.len();
        let mut i: usize = 0;
        assert(all.skip(0) =~= all);
        while i < n
            invariant
                all == item_models(packages@),
                all == lock@.items_at("package"@),
                n == packages@.len(),
                i <= n,
                locked_version(all.skip(i as int), name@) == locked_version(all, name@),
            decreases n - i,
        {
            assert(all.skip(i as int)[0] == packages@[i as int]@);
            assert(all.skip(i as int).drop_first() =~= all.skip(i + 1));
            if let Some(found) = packages[i].text_at("name") {
                if text_eq(found, name) {
                    if let Some(version) = packages[i].text_at("version") {
                        return Some(version.to_owned());
                    }
                }
            }
            i = i + 1;
        }
        assert(all.skip(n as int) =~= Seq::empty());
    } else {
        assert(all =~= Seq::empty());
    }
    None
}

/// The version of libfuzzer-sys that a fuzz project uses: the one in its lock file; else the one
/// that its requirement speaks of; else 0.4.0.
pub open spec fn libfuzzer_version_of(
    lock: Option<TreeModel>,
    requirement: Option<Seq<char>>,
) -> Seq<char> {
    let locked = match lock {
        Some(lock) => locked_version(lock.items_at("package"@), "libfuzzer-sys"@),
        None => None,
    };
    let required = match requirement {
        Some(req) => required_version(req),
        None => None,
    };
    match (locked, required) {
        (Some(version), _) => version,
        (None, Some(version)) => version,
        (None, None) => "0.4.0"@,
    }
}

pub open spec fn tree_option(t: Option<&Tree>) -> Option<TreeModel> {
    match t {
        Some(t) => Some(t@),
        None => None,
    }
}

/// The version of libfuzzer-sys that a fuzz project uses, given its lock file, as far as it can be
/// read, and its requirement.
pub fn libfuzzer_version(lock: Option<&Tree>, requirement: Option<&str>) -> (r: String)
    ensures
        r@ == libfuzzer_version_of(tree_option(lock), text_option(requirement)),
{
    if let Some(lock) = lock {
        if let Some(version) = find_locked_version(lock, "libfuzzer-sys") {
            return version;
        }
    }
    if let Some(req) = requirement {
        if let Some(version) = version_from_dependency_req(req) {
            return version;
        }
    }
    "0.4.0".to_owned()
}

/// The version in a lock file, from its text.
pub open spec fn locked_libfuzzer(content: Seq<u8>) -> Option<Seq<char>> {
    match toml_document(content) {
        Some(lock) => locked_version(lock.items_at("package"@), "libfuzzer-sys"@),
        None => None,
    }
}

/// The version of libfuzzer-sys in a lock file. A file that cannot be read has none.
pub fn locked_libfuzzer_version(content: &[u8]) -> (r: Option<String>)
    ensures
        r is Some <==> locked_libfuzzer(content@) is Some,
        r matches Some(version) ==> Some(version@) == locked_libfuzzer(content@),
{
    match parse_toml(content) {
        Some(lock) => find_locked_version(&lock, "libfuzzer-sys"),
        None => None,
    }
}

/// A package of a fuzz project, with what it needs.
pub struct FuzzPackage {
    pub manifest_path: String,
    /// The names of what it needs, with the versions that it asks for.
    pub dependencies: Vec<(String, String)>,
}

/// The first entry under a name.
pub open spec fn first_requirement(dependencies: Seq<(String, String)>, name: Seq<char>) -> Option<
    Seq<char>,
>
    decreases dependencies.len(),
{
    if dependencies.len() == 0 {
        None
    } else if dependencies[0].0@ == name {
        Some(dependencies[0].1@)
    } else {
        first_requirement(dependencies.drop_first(), name)
    }
}

/// What the first package with a manifest at a path asks of another package.
pub open spec fn requirement_of(
    packages: Seq<FuzzPackage>,
    manifest_path: Seq<char>,
    name: Seq<char>,
) -> Option<Seq<char>>
    decreases packages.len(),
{
    if packages.len() == 0 {
        None
    } else if same_path(packages[0].manifest_path@, manifest_path) {
        first_requirement(packages[0].dependencies@, name)
    } else {
        requirement_of(packages.drop_first(), manifest_path, name)
    }
}

fn find_first(dependencies: &Vec<(String, String)>, name: &str) -> (r: Option<String>)
    ensures
        string_option(r) == first_requirement(dependencies@, name@),
{
    let ghost all = dependencies@;
    let n = dependencies.len();
    let mut i: usize = 0;
    assert(all.skip(0) =~= all);
    while i < n
        invariant
            all == dependencies@,
            n == all.len(),
            i <= n,
            first_requirement(all.skip(i as int), name@) == first_requirement(all, name@),
        decreases n - i,
    {
        assert(all.skip(i as int).drop_first() =~= all.skip(i + 1));
        if text_eq(dependencies[i].0.as_str(), name) {
            return Some(dependencies[i].1.clone());
        }
        i = i + 1;
    }
    None
}

/// What the fuzz project with a manifest at a path asks of another package.
pub fn find_requirement(packages: &[FuzzPackage], manifest_path: &str, name: &str) -> (r: Option<
    String,
>)
    ensures
        string_option(r) == requirement_of(packages@, manifest_path@, name@),
{
    let ghost all = packages@;
    let n = packages.len();
    let mut i: usize = 0;
    assert(all.skip(0) =~= all);
    while i < n
        invariant
            all == packages@,
            n == all.len(),
            i <= n,
            requirement_of(all.skip(i as int), manifest_path@, name@) == requirement_of(
                all,
                manifest_path@,
                name@,
            ),
        decreases n - i,
    {
        assert(all.skip(i as int).drop_first() =~= all.skip(i + 1));
        if paths_equal(packages[i].manifest_path.as_str(), manifest_path) {
            return find_first(&packages[i].dependencies, name);
        }
        i = i + 1;
    }
    None
}

/// What is taken from the package that is fuzzed.
pub struct Manifest {
    pub crate_name: String,
    pub edition: Option<String>,
}

/// A package as cargo describes it.
pub struct PackageInfo {
    pub name: String,
    pub edition: String,
}

impl Manifest {
    /// Of the packages of a project the first is fuzzed; there is none where there is no package.
    pub fn parse(packages: &[PackageInfo]) -> (r: Option<Manifest>)
        ensures
            r is None <==> packages@.len() == 0,
            r matches Some(m) ==> m.crate_name@ == packages@[0].name@,
            r matches Some(m) ==> string_option(m.edition) == Some(
                packages@[0].edition@,
            ),
    {
        if packages.len() == 0 {
            return None;
        }
        Some(
            Manifest {
                crate_name: packages[0].name.clone(),
                edition: Some(packages[0].edition.clone()),
            },
        )
    }
}

} // verus!
