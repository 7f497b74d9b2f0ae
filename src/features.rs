//! The feature list of one dependency and the edits applied to it.
use vstd::prelude::*;
use crate::names::{find_feature, str_eq};
use crate::request::{contains_str, requests_view, strs, DependencyCommand, DependencyType, FeatureRequest, RequestView};

verus! {

/// A dependency that the package declares, as the package's metadata gives it.
#[derive(Clone, Debug)]
pub struct DeclaredDependency {
    pub name: String,
    pub optional: bool,
}

/// What the dependency being edited offers: its declared features and its
/// dependencies, of which the optional ones can be switched on like features.
#[derive(Clone, Debug)]
pub struct Capabilities {
    pub features: Vec<String>,
    pub dependencies: Vec<DeclaredDependency>,
}

impl Capabilities {
    /// Whether `name` can be edited: a declared feature or an optional dependency.
    pub open spec fn is_known(&self, name: Seq<char>) -> bool {
        strs(self.features@).contains(name) || exists|j: int|
            0 <= j < self.dependencies@.len() && (#[trigger] self.dependencies@[j]).optional
                && self.dependencies@[j].name@ == name
    }

    /// Whether `name` is a declared feature or an optional dependency.
    pub fn knows(&self, name: &str) -> (r: bool)
        ensures
            r == self.is_known(name@),
    {
        if contains_str(&self.features, name) {
            return true;
        }
        let mut i: usize = 0;
        while i < self.dependencies.len()
            invariant
                i <= self.dependencies@.len(),
                forall|j: int| 0 <= j < i ==> !((#[trigger] self.dependencies@[j]).optional
                    && self.dependencies@[j].name@ == name@),
            decreases self.dependencies@.len() - i,
        {
            let d = &self.dependencies[i];
            if d.optional && str_eq(d.name.as_str(), name) {
                return true;
            }
            i = i + 1;
        }
        false
    }
}

/// `s` without the first occurrence of `x`.
pub open spec fn remove_first(s: Seq<Seq<char>>, x: Seq<char>) -> Seq<Seq<char>>
    decreases s.len(),
{
    if s.len() == 0 {
        s
    } else if s[0] == x {
        s.drop_first()
    } else {
        seq![s[0]] + remove_first(s.drop_first(), x)
    }
}

/// The feature list after one request, for a table of kind `kind`. A request
/// for another kind, or for a name the dependency does not offer, changes nothing.
pub open spec fn apply_request(list: Seq<Seq<char>>, req: RequestView, kind: DependencyType, caps: Capabilities) -> Seq<Seq<char>> {
    if req.kind != kind || !caps.is_known(req.name) {
        list
    } else {
        match req.command {
            DependencyCommand::Add => if list.contains(req.name) {
                list
            } else {
                list.push(req.name)
            },
            DependencyCommand::Remove => remove_first(list, req.name),
        }
    }
}

/// The feature list after the requests, applied in order.
pub open spec fn apply_requests(list: Seq<Seq<char>>, reqs: Seq<RequestView>, kind: DependencyType, caps: Capabilities) -> Seq<Seq<char>>
    decreases reqs.len(),
{
    if reqs.len() == 0 {
        list
    } else {
        apply_request(apply_requests(list, reqs.drop_last(), kind, caps), reqs.last(), kind, caps)
    }
}

/// Removing the first occurrence is removing at the first index that holds it.
pub proof fn lemma_remove_first_at(s: Seq<Seq<char>>, x: Seq<char>, i: int)
    requires
        0 <= i < s.len(),
        s[i] == x,
        forall|j: int| 0 <= j < i ==> s[j] != x,
    ensures
        remove_first(s, x) == s.remove(i),
    decreases s.len(),
{
    if i > 0 {
        lemma_remove_first_at(s.drop_first(), x, i - 1);
        assert(remove_first(s, x) =~= s.remove(i));
    } else {
        assert(remove_first(s, x) =~= s.remove(i));
    }
}

/// Removing a name that is absent changes nothing.
pub proof fn lemma_remove_first_absent(s: Seq<Seq<char>>, x: Seq<char>)
    requires
        !s.contains(x),
    ensures
        remove_first(s, x) == s,
    decreases s.len(),
{
    if s.len() > 0 {
        assert(s.drop_first().contains(x) ==> s.contains(x)) by {
            if s.drop_first().contains(x) {
                let k = choose|k: int| 0 <= k < s.drop_first().len() && s.drop_first()[k] == x;
                assert(s[k + 1] == x);
            }
        }
        assert(s[0] != x) by {
            if s[0] == x {
                assert(s.contains(x));
            }
        }
        lemma_remove_first_absent(s.drop_first(), x);
        assert(seq![s[0]] + s.drop_first() =~= s);
    }
}

/// Applies one request to the feature list.
fn apply_one(features: &mut Vec<String>, req: &FeatureRequest, kind: DependencyType, caps: &Capabilities)
    ensures
        strs(final(features)@) == apply_request(strs(old(features)@), req@, kind, *caps),
{
    if req.kind != kind || !caps.knows(req.name.as_str()) {
        return;
    }
    let ghost before = strs(features@);
    let found = find_feature(features, req.name.as_str());
    match req.command {
        DependencyCommand::Add => {
            match found {
                Some(i) => {
                    assert(before[i as int] == req.name@);
                }
                None => {
                    assert(!before.contains(req.name@)) by {
                        if before.contains(req.name@) {
                            let k = choose|k: int| 0 <= k < before.len() && before[k] == req.name@;
                            assert(features@[k]@ == req.name@);
                        }
                    }
                    features.push(req.name.clone());
                    assert(strs(features@) =~= before.push(req.name@));
                }
            }
        }
        DependencyCommand::Remove => {
            match found {
                Some(i) => {
                    proof {
                        assert forall|j: int| 0 <= j < i implies before[j] != req.name@ by {
                            assert(before[j] == features@[j]@);
                        }
                        lemma_remove_first_at(before, req.name@, i as int);
                    }
                    features.remove(i);
                    assert(strs(features@) =~= before.remove(i as int));
                }
                None => {
                    proof {
                        assert(!before.contains(req.name@)) by {
                            if before.contains(req.name@) {
                                let k = choose|k: int| 0 <= k < before.len() && before[k] == req.name@;
                                assert(features@[k]@ == req.name@);
                            }
                        }
                        lemma_remove_first_absent(before, req.name@);
                    }
                }
            }
        }
    }
}

/// Applies the requests, in order, to the feature list of a dependency
/// declared in a table of kind `kind`.
pub fn edit_features(features: &mut Vec<String>, requests: &Vec<FeatureRequest>, kind: DependencyType, caps: &Capabilities)
    ensures
        strs(final(features)@) == apply_requests(strs(old(features)@), requests_view(requests@), kind, *caps),
{
    let ghost start = strs(features@);
    let ghost reqs = requests_view(requests@);
    let mut i: usize = 0;
    while i < requests.len()
        invariant
            i <= requests@.len(),
            reqs == requests_view(requests@),
            strs(features@) == apply_requests(start, reqs.subrange(0, i as int), kind, *caps),
        decreases requests@.len() - i,
    {
        apply_one(features, &requests[i], kind, caps);
        assert(reqs.subrange(0, i + 1).drop_last() =~= reqs.subrange(0, i as int));
        i = i + 1;
    }
    assert(reqs.subrange(0, requests@.len() as int) =~= reqs);
}

/// The names among the requests for tables of kind `kind` that the
/// dependency does not offer.
pub open spec fn unknown_of(reqs: Seq<RequestView>, kind: DependencyType, caps: Capabilities) -> Seq<Seq<char>>
    decreases reqs.len(),
{
    if reqs.len() == 0 {
        Seq::empty()
    } else {
        let rest = unknown_of(reqs.drop_last(), kind, caps);
        let r = reqs.last();
        if r.kind == kind && !caps.is_known(r.name) {
            rest.push(r.name)
        } else {
            rest
        }
    }
}

/// The requested names that are skipped because the dependency does not offer
/// them, in request order.
pub fn unknown_features(requests: &Vec<FeatureRequest>, kind: DependencyType, caps: &Capabilities) -> (r: Vec<String>)
    ensures
        strs(r@) == unknown_of(requests_view(requests@), kind, *caps),
{
    let ghost reqs = requests_view(requests@);
    let mut out: Vec<String> = Vec::new();
    let mut i: usize = 0;
    while i < requests.len()
        invariant
            i <= requests@.len(),
            reqs == requests_view(requests@),
            strs(out@) == unknown_of(reqs.subrange(0, i as int), kind, *caps),
        decreases requests@.len() - i,
    {
        let req = &requests[i];
        assert(reqs.subrange(0, i + 1).drop_last() =~= reqs.subrange(0, i as int));
        assert(reqs.subrange(0, i + 1).last() == req@);
        if req.kind == kind && !caps.knows(req.name.as_str()) {
            out.push(req.name.clone());
            assert(strs(out@) =~= unknown_of(reqs.subrange(0, i as int), kind, *caps).push(req.name@));
        }
        i = i + 1;
    }
    assert(reqs.subrange(0, requests@.len() as int) =~= reqs);
    out
}

/// The request that adds `name` in tables of kind `kind`.
pub open spec fn add_request(kind: DependencyType, name: Seq<char>) -> RequestView {
    RequestView { kind, name, command: DependencyCommand::Add }
}

/// The request that removes `name` in tables of kind `kind`.
pub open spec fn remove_request(kind: DependencyType, name: Seq<char>) -> RequestView {
    RequestView { kind, name, command: DependencyCommand::Remove }
}

/// Applying two requests is applying the first, then the second.
pub proof fn lemma_apply_two(list: Seq<Seq<char>>, a: RequestView, b: RequestView, kind: DependencyType, caps: Capabilities)
    ensures
        apply_requests(list, seq![a, b], kind, caps) == apply_request(apply_request(list, a, kind, caps), b, kind, caps),
        apply_requests(list, seq![a], kind, caps) == apply_request(list, a, kind, caps),
{
    assert(seq![a, b].drop_last() =~= seq![a]);
    assert(seq![a].drop_last() =~= Seq::<RequestView>::empty());
    assert(apply_requests(list, Seq::<RequestView>::empty(), kind, caps) == list);
    assert(apply_requests(list, seq![a], kind, caps) == apply_request(list, a, kind, caps));
    assert(seq![a, b].last() == b);
}

/// Adding a feature twice leaves the same list as adding it once.
pub proof fn add_twice_is_add_once(list: Seq<Seq<char>>, kind: DependencyType, name: Seq<char>, caps: Capabilities)
    ensures
        apply_requests(list, seq![add_request(kind, name), add_request(kind, name)], kind, caps)
            == apply_requests(list, seq![add_request(kind, name)], kind, caps),
{
    let r = add_request(kind, name);
    lemma_apply_two(list, r, r, kind, caps);
    let once = apply_request(list, r, kind, caps);
    if caps.is_known(name) && !list.contains(name) {
        assert(once[list.len() as int] == name);
        assert(once.contains(name));
    }
}

/// Removing a name from a list that ends with it, and holds it nowhere else,
/// gives back the list without it.
pub proof fn lemma_remove_pushed(list: Seq<Seq<char>>, x: Seq<char>)
    requires
        !list.contains(x),
    ensures
        remove_first(list.push(x), x) == list,
{
    let s = list.push(x);
    assert forall|j: int| 0 <= j < list.len() implies s[j] != x by {
        if s[j] == x {
            assert(list[j] == x);
        }
    }
    lemma_remove_first_at(s, x, list.len() as int);
    assert(s.remove(list.len() as int) =~= list);
}

/// Adding a feature the list does not hold and then removing it gives back the list.
pub proof fn add_then_remove_restores(list: Seq<Seq<char>>, kind: DependencyType, name: Seq<char>, caps: Capabilities)
    requires
        !list.contains(name),
    ensures
        apply_requests(list, seq![add_request(kind, name), remove_request(kind, name)], kind, caps) == list,
{
    lemma_apply_two(list, add_request(kind, name), remove_request(kind, name), kind, caps);
    if caps.is_known(name) {
        lemma_remove_pushed(list, name);
    }
}

/// A request for a name the dependency does not offer leaves the list as it
/// is, and is reported among the unknown names.
pub proof fn unknown_feature_is_skipped(list: Seq<Seq<char>>, req: RequestView, caps: Capabilities)
    requires
        !caps.is_known(req.name),
    ensures
        apply_requests(list, seq![req], req.kind, caps) == list,
        unknown_of(seq![req], req.kind, caps) == seq![req.name],
{
    lemma_apply_two(list, req, req, req.kind, caps);
    assert(seq![req].drop_last() =~= Seq::<RequestView>::empty());
    assert(unknown_of(Seq::<RequestView>::empty(), req.kind, caps) == Seq::<Seq<char>>::empty());
    assert(Seq::<Seq<char>>::empty().push(req.name) =~= seq![req.name]);
}

} // verus!
