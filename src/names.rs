//! Comparing and normalising package and feature names.
use vstd::prelude::*;
use vstd::string::{StrSliceExecFns, StringExecFns};

verus! {

/// A package name with every hyphen turned into an underscore.
pub open spec fn normalized(s: Seq<char>) -> Seq<char> {
    s.map_values(|c: char| if c == '-' { '_' } else { c })
}

/// Whether `a` and `b` hold the same characters.
pub fn str_eq(a: &str, b: &str) -> (r: bool)
    ensures
        r == (a@ == b@),
{
    let n = a.unicode_len();
    if n != b.unicode_len() {
        return false;
    }
    let mut i: usize = 0;
    while i < n
        invariant
            n == a@.len(),
            n == b@.len(),
            i <= n,
            a@.subrange(0, i as int) == b@.subrange(0, i as int),
        decreases n - i,
    {
        if a.get_char(i) != b.get_char(i) {
            assert(a@[i as int] != b@[i as int]);
            return false;
        }
        assert(a@.subrange(0, i + 1) == a@.subrange(0, i as int).push(a@[i as int]));
        assert(b@.subrange(0, i + 1) == b@.subrange(0, i as int).push(b@[i as int]));
        i = i + 1;
    }
    assert(a@ == a@.subrange(0, n as int));
    assert(b@ == b@.subrange(0, n as int));
    true
}

/// The name with its hyphens written as underscores.
pub fn normalize_name(name: &str) -> (r: String)
    ensures
        r@ == normalized(name@),
{
    let n = name.unicode_len();
    let mut out = String::new();
    let mut i: usize = 0;
    while i < n
        invariant
            n == name@.len(),
            i <= n,
            out@ == normalized(name@.subrange(0, i as int)),
        decreases n - i,
    {
        let ghost before = out@;
        assert(name@.subrange(i as int, i + 1) =~= seq![name@[i as int]]);
        if name.get_char(i) == '-' {
            proof {
                reveal_strlit("_");
            }
            assert("_"@.len() == 1 && "_"@[0] == '_');
            assert("_"@ =~= seq!['_']);
            out.append("_");
        } else {
            out.append(name.substring_char(i, i + 1));
        }
        assert(out@ =~= before.push(if name@[i as int] == '-' { '_' } else { name@[i as int] }));
        assert(normalized(name@.subrange(0, i + 1)) =~= normalized(name@.subrange(0, i as int)).push(
            if name@[i as int] == '-' { '_' } else { name@[i as int] },
        ));
        i = i + 1;
    }
    assert(name@.subrange(0, n as int) =~= name@);
    out
}

/// Whether a package called `package` is the one asked for as `name`:
/// names match once hyphens and underscores are treated alike.
pub fn package_matches(name: &str, package: &str) -> (r: bool)
    ensures
        r == (normalized(name@) == normalized(package@)),
{
    let a = normalize_name(name);
    let b = normalize_name(package);
    str_eq(a.as_str(), b.as_str())
}

/// The position of the first package in `packages` that `name` designates.
pub fn find_package(packages: &Vec<String>, name: &str) -> (r: Option<usize>)
    ensures
        match r {
            Some(i) => i < packages@.len() && normalized(packages@[i as int]@) == normalized(name@)
                && forall|j: int| 0 <= j < i ==> normalized(#[trigger] packages@[j]@) != normalized(name@),
            None => forall|j: int| 0 <= j < packages@.len() ==> normalized(#[trigger] packages@[j]@) != normalized(name@),
        },
{
    let mut i: usize = 0;
    while i < packages.len()
        invariant
            i <= packages@.len(),
            forall|j: int| 0 <= j < i ==> normalized(#[trigger] packages@[j]@) != normalized(name@),
        decreases packages@.len() - i,
    {
        if package_matches(name, packages[i].as_str()) {
            return Some(i);
        }
        i = i + 1;
    }
    None
}

/// The position of the first occurrence of `feature` in `features`.
pub fn find_feature(features: &Vec<String>, feature: &str) -> (r: Option<usize>)
    ensures
        match r {
            Some(i) => i < features@.len() && features@[i as int]@ == feature@
                && forall|j: int| 0 <= j < i ==> (#[trigger] features@[j])@ != feature@,
            None => forall|j: int| 0 <= j < features@.len() ==> (#[trigger] features@[j])@ != feature@,
        },
{
    let mut i: usize = 0;
    while i < features.len()
        invariant
            i <= features@.len(),
            forall|j: int| 0 <= j < i ==> (#[trigger] features@[j])@ != feature@,
        decreases features@.len() - i,
    {
        if str_eq(features[i].as_str(), feature) {
            return Some(i);
        }
        i = i + 1;
    }
    None
}

} // verus!
