//! One pass over a manifest: find every dependency table, and edit the
//! declaration of one dependency in those of the requested kind.
use vstd::prelude::*;
use crate::entry::{
    add_then_remove_is_no_request, table_of, listed, lemma_field_keys_differ, ListView, is_field_key, lemma_add_after_add, lemma_after_editable, shorthand_gains_and_loses_feature, default_features_key, editable, entry_after, features_key, key_set, version_key,
    EntryView,
};
use crate::features::{add_request, remove_request, edit_features, lemma_remove_first_absent, lemma_remove_first_at, remove_first, Capabilities};
use crate::manifest::{
    collapse_to_version, entry_shape, expand_shorthand, is_prefix, node_in, node_shape, nodes_of,
    remove_field, same_outline, set_default_features_off, set_features, table_features, table_in,
    table_keys, table_version, holder_of_field, empty_below, kept_apart, strictly_below, EntryShape, FeatureField, Shape,
};
use crate::names::{find_feature, str_eq};
use crate::request::{RequestView, contains_str, requests_view, strs, DefaultToggle, DependencyType, EditPlan};
use toml_edit::Document;

verus! {

/// Why a pass stopped without an edit.
#[derive(Clone, Debug)]
pub enum ShapeError {
    /// A dependency section, or `target`, that is not a table.
    Section(String),
    /// A `target.<condition>` that is not a table; holds the condition.
    Target(String),
    /// A `target.<condition>.dependencies` that is not a table; holds the condition.
    TargetSection(String),
    /// A declaration that is neither a string nor a table, or whose
    /// `features` is not a list of strings; holds its path.
    Entry(Vec<String>),
}

/// The section that holds the dependencies of a kind.
pub open spec fn section_of(kind: DependencyType) -> Seq<char> {
    match kind {
        DependencyType::Normal => "dependencies"@,
        DependencyType::Build => "build-dependencies"@,
        DependencyType::Dev => "dev-dependencies"@,
    }
}

pub open spec fn target_key() -> Seq<char> {
    "target"@
}

/// Whether `s` names one of the three dependency sections.
pub open spec fn is_section(s: Seq<char>) -> bool {
    s == section_of(DependencyType::Normal) || s == section_of(DependencyType::Build)
        || s == section_of(DependencyType::Dev)
}

/// Where a dependency section declares `n`.
pub open spec fn section_path(s: Seq<char>, n: Seq<char>) -> Seq<Seq<char>> {
    seq![s, n]
}

/// The table `target.<c>`.
pub open spec fn condition_path(c: Seq<char>) -> Seq<Seq<char>> {
    seq![target_key(), c]
}

/// The table `target.<c>.dependencies`.
pub open spec fn condition_section_path(c: Seq<char>) -> Seq<Seq<char>> {
    seq![target_key(), c, section_of(DependencyType::Normal)]
}

/// Where `target.<c>.dependencies` declares `n`.
pub open spec fn target_path(c: Seq<char>, n: Seq<char>) -> Seq<Seq<char>> {
    seq![target_key(), c, section_of(DependencyType::Normal), n]
}

/// The paths at which dependencies are declared.
pub open spec fn is_entry_path(p: Seq<Seq<char>>) -> bool {
    ||| p.len() == 2 && is_section(p[0])
    ||| p.len() == 4 && p[0] == target_key() && p[2] == section_of(DependencyType::Normal)
}

/// The conditions under `target`, in order.
pub open spec fn conditions(m: Map<Seq<Seq<char>>, EntryView>) -> Seq<Seq<char>> {
    match node_in(m, seq![target_key()]) {
        EntryView::Table(t) => t.keys,
        _ => Seq::empty(),
    }
}

/// A place where a table may stand: absent or a table.
pub open spec fn outline_ok(e: EntryView) -> bool {
    e is Absent || e is Table
}

/// Whether the section of kind `k` is absent or a table, and, where the pass
/// edits it, the declaration of `name` there can be edited.
pub open spec fn section_ok(m: Map<Seq<Seq<char>>, EntryView>, k: DependencyType, name: Seq<char>, kind: DependencyType) -> bool {
    let sec = node_in(m, seq![section_of(k)]);
    outline_ok(sec) && (sec is Table && k == kind ==> editable(node_in(m, section_path(section_of(k), name))))
}

/// Whether `target.<c>` is a table, its `dependencies` absent or a table, and,
/// where the pass edits it, the declaration of `name` there can be edited.
pub open spec fn condition_ok(m: Map<Seq<Seq<char>>, EntryView>, c: Seq<char>, name: Seq<char>, kind: DependencyType) -> bool {
    let deps = node_in(m, condition_section_path(c));
    &&& node_in(m, condition_path(c)) is Table
    &&& outline_ok(deps)
    &&& kind == DependencyType::Normal && deps is Table ==> editable(node_in(m, target_path(c, name)))
}

/// Whether `target` is absent or a table, and each of its conditions passes.
pub open spec fn targets_ok(m: Map<Seq<Seq<char>>, EntryView>, name: Seq<char>, kind: DependencyType) -> bool {
    outline_ok(node_in(m, seq![target_key()])) && forall|i: int|
        0 <= i < conditions(m).len() ==> #[trigger] condition_ok(m, conditions(m)[i], name, kind)
}

/// Whether a pass over `m` for `name` succeeds: every table it looks for has
/// the right shape, and every declaration it edits can be edited.
pub open spec fn pass_ok(m: Map<Seq<Seq<char>>, EntryView>, name: Seq<char>, kind: DependencyType) -> bool {
    &&& section_ok(m, DependencyType::Normal, name, kind)
    &&& section_ok(m, DependencyType::Build, name, kind)
    &&& section_ok(m, DependencyType::Dev, name, kind)
    &&& targets_ok(m, name, kind)
}

/// Whether the pass edits the declaration at `p`: `p` declares `name` in a
/// table of kind `kind`.
pub open spec fn edited_here(m: Map<Seq<Seq<char>>, EntryView>, name: Seq<char>, kind: DependencyType, p: Seq<Seq<char>>) -> bool {
    ||| p == section_path(section_of(kind), name) && node_in(m, seq![section_of(kind)]) is Table
    ||| kind == DependencyType::Normal && p.len() == 4 && p == target_path(p[1], name)
        && conditions(m).contains(p[1]) && node_in(m, condition_section_path(p[1])) is Table
}

/// What a pass leaves at the declaration path `p`.
pub open spec fn expected(m: Map<Seq<Seq<char>>, EntryView>, name: Seq<char>, plan: EditPlan, caps: Capabilities, p: Seq<Seq<char>>) -> EntryView {
    if edited_here(m, name, plan.kind, p) {
        entry_after(node_in(m, p), plan.default_toggle, requests_view(plan.requests@), plan.kind, caps)
    } else {
        node_in(m, p)
    }
}

/// Whether the tables that a pass looks for have the same outline in both maps.
pub open spec fn same_layout(a: Map<Seq<Seq<char>>, EntryView>, b: Map<Seq<Seq<char>>, EntryView>) -> bool {
    &&& forall|s: Seq<char>| same_outline(#[trigger] node_in(a, seq![s]), node_in(b, seq![s]))
    &&& forall|c: Seq<char>| same_outline(#[trigger] node_in(a, condition_path(c)), node_in(b, condition_path(c)))
    &&& forall|c: Seq<char>| same_outline(#[trigger] node_in(a, condition_section_path(c)), node_in(b, condition_section_path(c)))
}

/// Whether `p` lies outside every dependency table.
pub open spec fn outside_dependencies(p: Seq<Seq<char>>) -> bool {
    p.len() > 0 && !is_section(p[0]) && p[0] != target_key()
}

/// Whether `m1` differs from `m0` only where a pass for `name` under `plan`
/// may change it (see `touched`); this holds whether the pass succeeds or not.
pub open spec fn pass_frame(
    m0: Map<Seq<Seq<char>>, EntryView>,
    m1: Map<Seq<Seq<char>>, EntryView>,
    name: Seq<char>,
    plan: EditPlan,
    caps: Capabilities,
) -> bool {
    forall|q: Seq<Seq<char>>| !touched(m0, name, plan, caps, q) ==> #[trigger] node_in(m1, q) == node_in(m0, q)
}

/// Whether `m1` is what a successful pass for `name` makes of `m0`: each
/// declaration it edits is edited, and every node that no such edit can reach
/// (the other fields of a declaration, other declarations, other sections) is
/// as it was.
pub open spec fn pass_outcome(
    m0: Map<Seq<Seq<char>>, EntryView>,
    m1: Map<Seq<Seq<char>>, EntryView>,
    name: Seq<char>,
    plan: EditPlan,
    caps: Capabilities,
) -> bool {
    &&& forall|q: Seq<Seq<char>>| is_entry_path(q) ==> #[trigger] node_in(m1, q) == expected(m0, name, plan, caps, q)
    &&& forall|q: Seq<Seq<char>>| outside_dependencies(q) ==> #[trigger] node_in(m1, q) == node_in(m0, q)
    &&& forall|q: Seq<Seq<char>>| !in_reach(m0, name, plan.kind, q) ==> #[trigger] node_in(m1, q) == node_in(m0, q)
    &&& forall|q: Seq<Seq<char>>| !touched(m0, name, plan, caps, q) ==> #[trigger] node_in(m1, q) == node_in(m0, q)
    &&& forall|p: Seq<Seq<char>>| #[trigger] edited_here(m0, name, plan.kind, p) && !(node_in(m0, p) is Absent)
        ==> features_settled(m1, p)
    &&& same_layout(m0, m1)
}

proof fn lemma_literals()
    ensures
        section_of(DependencyType::Normal) != section_of(DependencyType::Build),
        section_of(DependencyType::Normal) != section_of(DependencyType::Dev),
        section_of(DependencyType::Build) != section_of(DependencyType::Dev),
        !is_section(target_key()),
        version_key() != default_features_key(),
        version_key() != features_key(),
{
    reveal_strlit("dependencies");
    reveal_strlit("build-dependencies");
    reveal_strlit("dev-dependencies");
    reveal_strlit("target");
    reveal_strlit("version");
    reveal_strlit("features");
    reveal_strlit("default-features");
    assert("dependencies"@.len() == 12);
    assert("build-dependencies"@.len() == 18);
    assert("dev-dependencies"@.len() == 16);
    assert("target"@.len() == 6);
    assert("version"@.len() == 7);
    assert("features"@.len() == 8);
    assert("default-features"@.len() == 16);
}

/// Whether an edit of the declaration at `p` may change the node at `q`: `q`
/// is the declaration, lies at or below one of its fields, or is the table
/// holding it where the declaration is named like a field.
pub open spec fn near(p: Seq<Seq<char>>, q: Seq<Seq<char>>) -> bool {
    ||| q == p
    ||| strictly_below(p, q) && is_field_key(q[p.len() as int])
    ||| holder_of_field(p, q)
}

/// Whether `b` differs from `a` only near `p`, where the holding table keeps
/// its outline.
pub open spec fn near_frame(a: Map<Seq<Seq<char>>, EntryView>, b: Map<Seq<Seq<char>>, EntryView>, p: Seq<Seq<char>>) -> bool {
    &&& forall|q: Seq<Seq<char>>| !near(p, q) ==> #[trigger] node_in(b, q) == node_in(a, q)
    &&& p.len() > 0 ==> same_outline(node_in(b, p.drop_last()), node_in(a, p.drop_last()))
}

/// Whether an edit of the declaration at `p`, which held `e0`, under `plan`
/// may change the node at `q`: `q` is the declaration, lies at or below its
/// `features` field, at or below its `default-features` field where the plan
/// toggles it, or, where the declaration changes between shorthand and
/// table, at or below its `version` field or is the table holding it where
/// the declaration is named like a field.
pub open spec fn near_in(p: Seq<Seq<char>>, q: Seq<Seq<char>>, e0: EntryView, plan: EditPlan, caps: Capabilities) -> bool {
    let reshaped = e0 is Text
        || entry_after(e0, plan.default_toggle, requests_view(plan.requests@), plan.kind, caps) is Text;
    ||| q == p
    ||| is_prefix(p.push(features_key()), q)
    ||| plan.default_toggle != DefaultToggle::Keep && is_prefix(p.push(default_features_key()), q)
    ||| reshaped && (is_prefix(p.push(version_key()), q) || holder_of_field(p, q))
}

/// Whether `b` differs from `a` only where an edit of the declaration at `p`
/// under `plan` may change it.
pub open spec fn frame_in(a: Map<Seq<Seq<char>>, EntryView>, b: Map<Seq<Seq<char>>, EntryView>, p: Seq<Seq<char>>, plan: EditPlan, caps: Capabilities) -> bool {
    same_off(a, b, p, node_in(a, p), plan, caps)
}

/// Whether `b` differs from `a` only where an edit of the declaration at `p`,
/// which held `e0`, under `plan` may change it.
pub open spec fn same_off(a: Map<Seq<Seq<char>>, EntryView>, b: Map<Seq<Seq<char>>, EntryView>, p: Seq<Seq<char>>, e0: EntryView, plan: EditPlan, caps: Capabilities) -> bool {
    forall|q: Seq<Seq<char>>| !near_in(p, q, e0, plan, caps) ==> #[trigger] node_in(b, q) == node_in(a, q)
}

proof fn lemma_same_off_trans(a: Map<Seq<Seq<char>>, EntryView>, b: Map<Seq<Seq<char>>, EntryView>, c: Map<Seq<Seq<char>>, EntryView>, p: Seq<Seq<char>>, e0: EntryView, plan: EditPlan, caps: Capabilities)
    requires
        same_off(a, b, p, e0, plan, caps),
        same_off(b, c, p, e0, plan, caps),
    ensures
        same_off(a, c, p, e0, plan, caps),
{
}

/// An edit of field `k` of the declaration stays where the plan may change it.
proof fn lemma_kept_off(a: Map<Seq<Seq<char>>, EntryView>, b: Map<Seq<Seq<char>>, EntryView>, p: Seq<Seq<char>>, k: Seq<char>, e0: EntryView, plan: EditPlan, caps: Capabilities)
    requires
        kept_apart(a, b, p, k),
        k == features_key() || (k == default_features_key() && plan.default_toggle != DefaultToggle::Keep),
    ensures
        same_off(a, b, p, e0, plan, caps),
{
}

/// Whether the `features` field of the table at `p` holds exactly what its
/// view says: an array with nothing below it, or nothing at all.
pub open spec fn features_settled(m: Map<Seq<Seq<char>>, EntryView>, p: Seq<Seq<char>>) -> bool {
    node_in(m, p) is Table ==> match table_in(m, p).features {
        ListView::Strings(_) => node_in(m, p.push(features_key())) is Other && forall|q: Seq<Seq<char>>|
            strictly_below(p.push(features_key()), q) ==> #[trigger] node_in(m, q) is Absent,
        ListView::Missing => empty_below(m, p.push(features_key())),
        ListView::Invalid => true,
    }
}

/// A node strictly below `p` lies at or below the field of `p` it passes through.
proof fn lemma_below_key(p: Seq<Seq<char>>, q: Seq<Seq<char>>)
    requires
        strictly_below(p, q),
    ensures
        is_prefix(p.push(q[p.len() as int]), q),
        forall|k: Seq<char>| is_prefix(p.push(k), q) ==> k == q[p.len() as int],
{
    assert(q.subrange(0, p.len() as int + 1) =~= p.push(q[p.len() as int]));
    assert forall|k: Seq<char>| is_prefix(p.push(k), q) implies k == q[p.len() as int] by {
        assert(q.subrange(0, p.len() as int + 1)[p.len() as int] == q[p.len() as int]);
    }
}

/// Whether some declaration that a pass under `plan` edits, and that is
/// present, may change the node at `q` (see `near_in`).
#[verifier::opaque]
pub open spec fn touched(m: Map<Seq<Seq<char>>, EntryView>, name: Seq<char>, plan: EditPlan, caps: Capabilities, q: Seq<Seq<char>>) -> bool {
    exists|p: Seq<Seq<char>>| #[trigger] edited_here(m, name, plan.kind, p) && !(node_in(m, p) is Absent)
        && near_in(p, q, node_in(m, p), plan, caps)
}

/// Whether some declaration under `target` that a pass under `plan` edits,
/// and that is present, may change the node at `q`.
#[verifier::opaque]
pub open spec fn target_touched(m: Map<Seq<Seq<char>>, EntryView>, name: Seq<char>, plan: EditPlan, caps: Capabilities, q: Seq<Seq<char>>) -> bool {
    exists|c: Seq<char>| #[trigger] edited_here(m, name, plan.kind, target_path(c, name))
        && !(node_in(m, target_path(c, name)) is Absent)
        && near_in(target_path(c, name), q, node_in(m, target_path(c, name)), plan, caps)
}

proof fn lemma_step_touch_target(
    m0: Map<Seq<Seq<char>>, EntryView>,
    a: Map<Seq<Seq<char>>, EntryView>,
    b: Map<Seq<Seq<char>>, EntryView>,
    c: Seq<char>,
    name: Seq<char>,
    plan: EditPlan,
    caps: Capabilities,
)
    requires
        edited_here(m0, name, plan.kind, target_path(c, name)),
        !(node_in(m0, target_path(c, name)) is Absent),
        node_in(a, target_path(c, name)) == node_in(m0, target_path(c, name)),
        frame_in(a, b, target_path(c, name), plan, caps),
    ensures
        forall|q: Seq<Seq<char>>| !target_touched(m0, name, plan, caps, q) ==> #[trigger] node_in(b, q) == node_in(a, q),
{
    reveal(target_touched);
}

/// What lies at or below one declaration path lies apart from every other.
proof fn lemma_apart(pi: Seq<Seq<char>>, pj: Seq<Seq<char>>, q: Seq<Seq<char>>)
    requires
        is_entry_path(pi),
        is_entry_path(pj),
        pi != pj,
        is_prefix(pi, q),
    ensures
        !is_prefix(pj, q),
        !holder_of_field(pj, q),
        q != pj,
{
    lemma_literals();
    assert(q[0] == pi[0]) by {
        assert(q.subrange(0, pi.len() as int)[0] == q[0]);
    }
    if q == pj {
        assert(q.subrange(0, q.len() as int) =~= q);
    }
    if is_prefix(pj, q) {
        assert(q[0] == pj[0]) by {
            assert(q.subrange(0, pj.len() as int)[0] == q[0]);
        }
        if pi.len() == pj.len() {
            assert(pi =~= pj) by {
                assert(q.subrange(0, pi.len() as int) == pi);
                assert(q.subrange(0, pj.len() as int) == pj);
            }
        }
    }
    if holder_of_field(pj, q) {
        assert(q[0] == pj[0]);
    }
}

/// What lies at or below a field of `p` lies at or below `p`.
proof fn lemma_push_prefix(p: Seq<Seq<char>>, k: Seq<char>, q: Seq<Seq<char>>)
    requires
        is_prefix(p.push(k), q),
    ensures
        is_prefix(p, q),
{
    assert(q.subrange(0, p.len() as int) =~= q.subrange(0, p.len() as int + 1).subrange(0, p.len() as int));
    assert(p.push(k).subrange(0, p.len() as int) =~= p);
}

/// A later edit elsewhere leaves a settled `features` field settled.
proof fn lemma_settled_kept(
    a: Map<Seq<Seq<char>>, EntryView>,
    b: Map<Seq<Seq<char>>, EntryView>,
    pi: Seq<Seq<char>>,
    pj: Seq<Seq<char>>,
    e: EntryView,
    plan: EditPlan,
    caps: Capabilities,
)
    requires
        features_settled(a, pi),
        same_off(a, b, pj, e, plan, caps),
        is_entry_path(pi),
        is_entry_path(pj),
        pi != pj,
    ensures
        features_settled(b, pi),
{
    assert forall|q: Seq<Seq<char>>| is_prefix(pi, q) implies #[trigger] node_in(b, q) == node_in(a, q) by {
        lemma_apart(pi, pj, q);
        if near_in(pj, q, e, plan, caps) {
            if is_prefix(pj.push(features_key()), q) {
                lemma_push_prefix(pj, features_key(), q);
            }
            if is_prefix(pj.push(default_features_key()), q) {
                lemma_push_prefix(pj, default_features_key(), q);
            }
            if is_prefix(pj.push(version_key()), q) {
                lemma_push_prefix(pj, version_key(), q);
            }
        }
    }
    let f = pi.push(features_key());
    assert(is_prefix(pi, pi)) by { assert(pi.subrange(0, pi.len() as int) =~= pi); }
    assert(is_prefix(pi, f)) by { assert(f.subrange(0, pi.len() as int) =~= pi); }
    assert forall|q: Seq<Seq<char>>| is_prefix(f, q) implies is_prefix(pi, q) by {
        assert(q.subrange(0, pi.len() as int) =~= f.subrange(0, pi.len() as int));
    }
    assert(node_in(b, pi) == node_in(a, pi));
    assert(node_in(b, f) == node_in(a, f));
}

/// A step that edits the declaration at `p` under `plan`, where the pass edits
/// it and it is present, or changes nothing, leaves every untouched node.
proof fn lemma_step_touch(
    m0: Map<Seq<Seq<char>>, EntryView>,
    a: Map<Seq<Seq<char>>, EntryView>,
    b: Map<Seq<Seq<char>>, EntryView>,
    p: Seq<Seq<char>>,
    name: Seq<char>,
    plan: EditPlan,
    caps: Capabilities,
)
    requires
        (edited_here(m0, name, plan.kind, p) && !(node_in(m0, p) is Absent)
            && node_in(a, p) == node_in(m0, p) && frame_in(a, b, p, plan, caps)) || b == a,
    ensures
        forall|q: Seq<Seq<char>>| !touched(m0, name, plan, caps, q) ==> #[trigger] node_in(b, q) == node_in(a, q),
{
    reveal(touched);
}

/// Whether some declaration that a pass edits, and that is present, may
/// change the node at `q`.
#[verifier::opaque]
pub open spec fn in_reach(m: Map<Seq<Seq<char>>, EntryView>, name: Seq<char>, kind: DependencyType, q: Seq<Seq<char>>) -> bool {
    exists|p: Seq<Seq<char>>| #[trigger] edited_here(m, name, kind, p) && !(node_in(m, p) is Absent) && near(p, q)
}

proof fn lemma_near_trans(a: Map<Seq<Seq<char>>, EntryView>, b: Map<Seq<Seq<char>>, EntryView>, c: Map<Seq<Seq<char>>, EntryView>, p: Seq<Seq<char>>)
    requires
        near_frame(a, b, p),
        near_frame(b, c, p),
    ensures
        near_frame(a, c, p),
{
    if p.len() > 0 {
        let h = p.drop_last();
        assert(same_outline(node_in(c, h), node_in(b, h)));
        assert(same_outline(node_in(b, h), node_in(a, h)));
    }
}

/// An edit of one field of the declaration changes nothing away from it.
proof fn lemma_kept_near(a: Map<Seq<Seq<char>>, EntryView>, b: Map<Seq<Seq<char>>, EntryView>, p: Seq<Seq<char>>, k: Seq<char>)
    requires
        kept_apart(a, b, p, k),
        is_field_key(k),
    ensures
        near_frame(a, b, p),
{
    assert forall|q: Seq<Seq<char>>| !near(p, q) implies #[trigger] node_in(b, q) == node_in(a, q) by {
        if is_prefix(p.push(k), q) {
            assert(q.subrange(0, p.len() as int) =~= p.push(k).subrange(0, p.len() as int));
            assert(p.push(k).subrange(0, p.len() as int) =~= p);
            assert(q[p.len() as int] == p.push(k)[p.len() as int]);
        }
    }
    if p.len() > 0 {
        let h = p.drop_last();
        assert(h != p);
        assert(!is_prefix(p.push(k), h));
    }
}

/// What an edit near a declaration path leaves as it was.
proof fn lemma_entry_frame(a: Map<Seq<Seq<char>>, EntryView>, b: Map<Seq<Seq<char>>, EntryView>, p: Seq<Seq<char>>)
    requires
        near_frame(a, b, p),
        is_entry_path(p),
    ensures
        same_layout(a, b),
        forall|q: Seq<Seq<char>>| is_entry_path(q) && q != p ==> #[trigger] node_in(b, q) == node_in(a, q),
        forall|q: Seq<Seq<char>>| outside_dependencies(q) ==> #[trigger] node_in(b, q) == node_in(a, q),
{
    lemma_literals();
    let h = p.drop_last();
    assert forall|s: Seq<char>| same_outline(#[trigger] node_in(b, seq![s]), node_in(a, seq![s])) by {
        let q = seq![s];
        if q == h {
        } else if near(p, q) {
            assert(q != p);
        }
    }
    assert forall|c: Seq<char>| same_outline(#[trigger] node_in(b, condition_path(c)), node_in(a, condition_path(c))) by {
        let q = condition_path(c);
        if q == h {
        } else if near(p, q) {
            if strictly_below(p, q) {
                assert(q.subrange(0, p.len() as int)[0] == q[0]);
            }
        }
    }
    assert forall|c: Seq<char>| same_outline(#[trigger] node_in(b, condition_section_path(c)), node_in(a, condition_section_path(c))) by {
        let q = condition_section_path(c);
        if q == h {
        } else if near(p, q) {
            if strictly_below(p, q) {
                assert(q.subrange(0, p.len() as int)[0] == q[0]);
            }
        }
    }
    assert forall|q: Seq<Seq<char>>| is_entry_path(q) && q != p implies #[trigger] node_in(b, q) == node_in(a, q) by {
        if strictly_below(p, q) {
            assert(q.subrange(0, p.len() as int)[0] == q[0]);
        }
    }
    assert forall|q: Seq<Seq<char>>| outside_dependencies(q) implies #[trigger] node_in(b, q) == node_in(a, q) by {
        if strictly_below(p, q) {
            assert(q.subrange(0, p.len() as int)[0] == q[0]);
        }
        if holder_of_field(p, q) {
            assert(q[0] == p[0]);
        }
    }
}

/// A key other than `k` stays among the keys when `k` is set or removed.
proof fn lemma_key_kept(s: Seq<Seq<char>>, k: Seq<char>, x: Seq<char>)
    requires
        s.contains(x),
        x != k,
    ensures
        key_set(s, k).contains(x),
        remove_first(s, k).contains(x),
    decreases s.len(),
{
    let j = choose|j: int| 0 <= j < s.len() && s[j] == x;
    if !s.contains(k) {
        assert(s.push(k)[j] == x);
    }
    if s.len() > 0 {
        if s[0] == k {
            assert(s.drop_first()[j - 1] == x);
        } else if s[0] == x {
            assert(remove_first(s, k)[0] == x);
        } else {
            assert(s.drop_first()[j - 1] == x);
            lemma_key_kept(s.drop_first(), k, x);
            let r = remove_first(s.drop_first(), k);
            let i = choose|i: int| 0 <= i < r.len() && r[i] == x;
            assert((seq![s[0]] + r)[i + 1] == x);
        }
    }
}

/// Takes the key `k` out of `keys`.
fn drop_key(keys: &mut Vec<String>, k: &str)
    ensures
        strs(final(keys)@) == remove_first(strs(old(keys)@), k@),
{
    let ghost before = strs(keys@);
    match find_feature(keys, k) {
        Some(i) => {
            proof {
                assert forall|j: int| 0 <= j < i implies before[j] != k@ by {
                    assert(before[j] == keys@[j]@);
                }
                lemma_remove_first_at(before, k@, i as int);
            }
            keys.remove(i);
            assert(strs(keys@) =~= before.remove(i as int));
        }
        None => {
            proof {
                assert(!before.contains(k@)) by {
                    if before.contains(k@) {
                        let j = choose|j: int| 0 <= j < before.len() && before[j] == k@;
                        assert(keys@[j]@ == k@);
                    }
                }
                lemma_remove_first_absent(before, k@);
            }
        }
    }
}

/// Puts the key `k` last in `keys` unless it is there.
fn add_key(keys: &mut Vec<String>, k: &str)
    ensures
        strs(final(keys)@) == key_set(strs(old(keys)@), k@),
{
    let ghost before = strs(keys@);
    if !contains_str(keys, k) {
        keys.push(k.to_owned());
        assert(strs(keys@) =~= before.push(k@));
    }
}

/// Edits the declaration at `path`: a shorthand becomes a table, the
/// default-features toggle and the feature requests are applied, and the
/// result is collapsed to its smallest form. Only the declaration, its edited
/// fields, and the holding table where the declaration is named like a field
/// can change. An absent declaration is left as it is; one that cannot be
/// edited is an error, and the document is untouched.
fn process_entry(doc: &mut Document, path: &Vec<String>, plan: &EditPlan, caps: &Capabilities) -> (r: Result<(), ()>)
    ensures
        r is Ok <==> editable(node_in(nodes_of(*old(doc)), strs(path@))),
        r is Ok ==> node_in(nodes_of(*final(doc)), strs(path@)) == entry_after(
            node_in(nodes_of(*old(doc)), strs(path@)),
            plan.default_toggle,
            requests_view(plan.requests@),
            plan.kind,
            *caps,
        ),
        r is Ok ==> near_frame(nodes_of(*old(doc)), nodes_of(*final(doc)), strs(path@)),
        r is Ok ==> frame_in(nodes_of(*old(doc)), nodes_of(*final(doc)), strs(path@), *plan, *caps),
        r is Ok ==> features_settled(nodes_of(*final(doc)), strs(path@)),
        r is Err || node_in(nodes_of(*old(doc)), strs(path@)) is Absent ==> *final(doc) == *old(doc),
{
    proof {
        lemma_literals();
    }
    let ghost p = strs(path@);
    let ghost m0 = nodes_of(*doc);
    match entry_shape(doc, path) {
        EntryShape::Absent => {
            return Ok(());
        },
        EntryShape::Other => {
            return Err(());
        },
        EntryShape::Text(v) => {
            expand_shorthand(doc, path, "version", v.as_str());
            proof {
                let m1 = nodes_of(*doc);
                assert forall|q: Seq<Seq<char>>| !near_in(p, q, node_in(m0, p), *plan, *caps) implies #[trigger] node_in(m1, q) == node_in(m0, q) by {
                    if is_prefix(p, q) && q != p {
                        if q.len() == p.len() {
                            assert(q.subrange(0, q.len() as int) =~= q);
                        }
                        lemma_below_key(p, q);
                        if q == p.push(version_key()) {
                            assert(is_prefix(p.push(version_key()), q));
                        }
                    }
                }
                assert forall|q: Seq<Seq<char>>| !near(p, q) implies #[trigger] node_in(m1, q) == node_in(m0, q) by {
                    if is_prefix(p, q) && q != p {
                        if q.len() == p.len() {
                            assert(q.subrange(0, q.len() as int) =~= q);
                        }
                        assert(strictly_below(p, q));
                        if q == p.push(version_key()) {
                            assert(q[p.len() as int] == version_key());
                        }
                    }
                }
            }
        },
        EntryShape::Table => {},
    }
    let ghost m1 = nodes_of(*doc);
    let ghost e0 = node_in(m0, p);
    assert(near_frame(m0, m1, p));
    assert(same_off(m0, m1, p, e0, *plan, *caps));
    let ghost t0 = table_in(m1, p);
    let mut list = match table_features(doc, path, "features") {
        FeatureField::Missing => Vec::new(),
        FeatureField::Strings(l) => l,
        FeatureField::Invalid => {
            return Err(());
        },
    };
    assert(strs(list@) == crate::entry::listed(t0.features));
    let mut keys = table_keys(doc, path);
    let ghost k1 = strs(keys@);
    let version = table_version(doc, path, "version");
    match plan.default_toggle {
        DefaultToggle::Keep => {},
        DefaultToggle::Disable => {
            let ghost a = nodes_of(*doc);
            set_default_features_off(doc, path, "default-features");
            add_key(&mut keys, "default-features");
            proof {
                lemma_kept_near(a, nodes_of(*doc), p, default_features_key());
                lemma_near_trans(m1, a, nodes_of(*doc), p);
                lemma_kept_off(a, nodes_of(*doc), p, default_features_key(), e0, *plan, *caps);
                lemma_same_off_trans(m0, a, nodes_of(*doc), p, e0, *plan, *caps);
            }
        },
        DefaultToggle::Enable => {
            let ghost a = nodes_of(*doc);
            remove_field(doc, path, "default-features");
            drop_key(&mut keys, "default-features");
            proof {
                lemma_kept_near(a, nodes_of(*doc), p, default_features_key());
                lemma_near_trans(m1, a, nodes_of(*doc), p);
                lemma_kept_off(a, nodes_of(*doc), p, default_features_key(), e0, *plan, *caps);
                lemma_same_off_trans(m0, a, nodes_of(*doc), p, e0, *plan, *caps);
            }
        },
    }
    let ghost k2 = strs(keys@);
    edit_features(&mut list, &plan.requests, plan.kind, caps);
    let ghost a = nodes_of(*doc);
    if list.len() == 0 {
        remove_field(doc, path, "features");
        drop_key(&mut keys, "features");
    } else {
        set_features(doc, path, "features", &list);
        add_key(&mut keys, "features");
    }
    proof {
        lemma_kept_near(a, nodes_of(*doc), p, features_key());
        lemma_near_trans(m1, a, nodes_of(*doc), p);
        lemma_kept_off(a, nodes_of(*doc), p, features_key(), e0, *plan, *caps);
        lemma_same_off_trans(m0, a, nodes_of(*doc), p, e0, *plan, *caps);
    }
    let ghost t2 = table_in(nodes_of(*doc), p);
    assert(strs(keys@) == t2.keys);
    if keys.len() == 1 && str_eq(keys[0].as_str(), "version") && version.is_some() {
        assert(strs(keys@) =~= seq![version_key()]);
        let ghost mc = nodes_of(*doc);
        collapse_to_version(doc, path, "version");
        proof {
            let mf = nodes_of(*doc);
            assert forall|q: Seq<Seq<char>>| !near(p, q) implies #[trigger] node_in(mf, q) == node_in(m1, q) by {
                if is_prefix(p, q) && q.len() == p.len() {
                    assert(q.subrange(0, q.len() as int) =~= q);
                }
                if !strictly_below(p, q) {
                    assert(node_in(mf, q) == node_in(mc, q));
                    assert(node_in(mc, q) == node_in(m1, q));
                } else {
                    let x = q[p.len() as int];
                    assert(!is_field_key(x));
                    if k1.contains(x) {
                        lemma_key_kept(k1, default_features_key(), x);
                        lemma_key_kept(k2, features_key(), x);
                        assert(k2.contains(x));
                        assert(seq![version_key()].contains(x));
                        assert(x == version_key());
                    }
                    assert(node_in(m1, q) is Absent);
                    assert(node_in(mf, q) is Absent);
                }
            }
            if p.len() > 0 {
                let h = p.drop_last();
                assert(same_outline(node_in(mf, h), node_in(mc, h)));
                assert(same_outline(node_in(mc, h), node_in(m1, h)));
            }
            assert(near_frame(m1, mf, p));
            assert(node_in(mf, p) == entry_after(e0, plan.default_toggle, requests_view(plan.requests@), plan.kind, *caps));
            assert forall|q: Seq<Seq<char>>| !near_in(p, q, e0, *plan, *caps) implies #[trigger] node_in(mf, q) == node_in(mc, q) by {
                if is_prefix(p, q) && q.len() == p.len() {
                    assert(q.subrange(0, q.len() as int) =~= q);
                }
                if strictly_below(p, q) {
                    lemma_below_key(p, q);
                    let x = q[p.len() as int];
                    assert(x != features_key() && x != version_key());
                    if k1.contains(x) {
                        if x != default_features_key() {
                            lemma_key_kept(k1, default_features_key(), x);
                        } else {
                            assert(plan.default_toggle == DefaultToggle::Keep);
                        }
                        assert(k2.contains(x));
                        lemma_key_kept(k2, features_key(), x);
                        assert(seq![version_key()].contains(x));
                        assert(x == version_key());
                    }
                    assert(node_in(m1, q) is Absent);
                    assert(node_in(mc, q) == node_in(m0, q));
                    assert(node_in(m1, q) == node_in(m0, q));
                }
            }
            assert(same_off(mc, mf, p, e0, *plan, *caps));
            lemma_same_off_trans(m0, mc, mf, p, e0, *plan, *caps);
        }
    } else {
        assert(keys@.len() == 1 && strs(keys@)[0] == version_key() ==> strs(keys@) =~= seq![version_key()]);
    }
    proof {
        lemma_near_trans(m0, m1, nodes_of(*doc), p);
    }
    Ok(())
}

/// Checks the dependency section `section`, of kind `kind`, and edits the
/// declaration of `name` there when the plan is for that kind.
fn process_section(
    doc: &mut Document,
    section: &str,
    kind: DependencyType,
    name: &str,
    plan: &EditPlan,
    caps: &Capabilities,
) -> (r: Result<(), ShapeError>)
    requires
        section@ == section_of(kind),
    ensures
        ({
            let m0 = nodes_of(*old(doc));
            let sec = node_in(m0, seq![section@]);
            let p = section_path(section@, name@);
            &&& r is Ok <==> outline_ok(sec) && (sec is Table && kind == plan.kind ==> editable(node_in(m0, p)))
            &&& r is Ok ==> near_frame(m0, nodes_of(*final(doc)), p)
            &&& r is Ok ==> frame_in(m0, nodes_of(*final(doc)), p, *plan, *caps)
            &&& r is Err ==> nodes_of(*final(doc)) == m0
            &&& r is Ok && sec is Table && kind == plan.kind && !(node_in(m0, p) is Absent)
                ==> features_settled(nodes_of(*final(doc)), p)
            &&& r is Ok && !(sec is Table && kind == plan.kind && !(node_in(m0, p) is Absent))
                ==> nodes_of(*final(doc)) == m0
            &&& r is Ok ==> node_in(nodes_of(*final(doc)), p) == if sec is Table && kind == plan.kind {
                entry_after(node_in(m0, p), plan.default_toggle, requests_view(plan.requests@), plan.kind, *caps)
            } else {
                node_in(m0, p)
            }
        }),
{
    let key = vec![section.to_owned()];
    assert(strs(key@) =~= seq![section@]);
    match node_shape(doc, &key) {
        Shape::Other => Err(ShapeError::Section(section.to_owned())),
        Shape::Absent => Ok(()),
        Shape::Table => {
            if kind != plan.kind {
                return Ok(());
            }
            let path = vec![section.to_owned(), name.to_owned()];
            assert(strs(path@) =~= section_path(section@, name@));
            match process_entry(doc, &path, plan, caps) {
                Ok(()) => Ok(()),
                Err(()) => Err(ShapeError::Entry(path)),
            }
        },
    }
}

/// Checks `target` and each of its conditions, and edits the declaration of
/// `name` in each `target.<condition>.dependencies` when the plan is for
/// normal dependencies.
fn process_targets(doc: &mut Document, name: &str, plan: &EditPlan, caps: &Capabilities) -> (r: Result<(), ShapeError>)
    ensures
        ({
            let m0 = nodes_of(*old(doc));
            let m1 = nodes_of(*final(doc));
            &&& r is Ok <==> targets_ok(m0, name@, plan.kind)
            &&& r is Ok ==> same_layout(m0, m1)
            &&& r is Ok ==> forall|q: Seq<Seq<char>>| outside_dependencies(q) ==> #[trigger] node_in(m1, q) == node_in(m0, q)
            &&& r is Ok ==> forall|q: Seq<Seq<char>>| !in_reach(m0, name@, plan.kind, q) ==> #[trigger] node_in(m1, q) == node_in(m0, q)
            &&& forall|q: Seq<Seq<char>>| !target_touched(m0, name@, *plan, *caps, q) ==> #[trigger] node_in(m1, q) == node_in(m0, q)
            &&& r is Ok ==> forall|c: Seq<char>| #[trigger] edited_here(m0, name@, plan.kind, target_path(c, name@))
                && !(node_in(m0, target_path(c, name@)) is Absent) ==> features_settled(m1, target_path(c, name@))
            &&& r is Ok ==> forall|q: Seq<Seq<char>>| is_entry_path(q) ==> #[trigger] node_in(m1, q) == if q.len() == 4 {
                expected(m0, name@, *plan, *caps, q)
            } else {
                node_in(m0, q)
            }
        }),
{
    proof {
        lemma_literals();
    }
    let ghost m0 = nodes_of(*doc);
    let top = vec!["target".to_owned()];
    assert(strs(top@) =~= seq![target_key()]);
    match node_shape(doc, &top) {
        Shape::Other => {
            return Err(ShapeError::Section("target".to_owned()));
        },
        Shape::Absent => {
            assert(conditions(m0).len() == 0);
            return Ok(());
        },
        Shape::Table => {},
    }
    let conds = table_keys(doc, &top);
    let ghost cs = conditions(m0);
    assert(strs(conds@) == cs);
    let mut i: usize = 0;
    while i < conds.len()
        invariant
            i <= conds@.len(),
            strs(conds@) == cs,
            m0 == nodes_of(*old(doc)),
            cs == conditions(m0),
            cs.no_duplicates(),
            outline_ok(node_in(m0, seq![target_key()])),
            same_layout(m0, nodes_of(*doc)),
            forall|q: Seq<Seq<char>>| outside_dependencies(q) ==> #[trigger] node_in(nodes_of(*doc), q) == node_in(m0, q),
            forall|q: Seq<Seq<char>>| !in_reach(m0, name@, plan.kind, q) ==> #[trigger] node_in(nodes_of(*doc), q) == node_in(m0, q),
            forall|q: Seq<Seq<char>>| !target_touched(m0, name@, *plan, *caps, q) ==> #[trigger] node_in(nodes_of(*doc), q) == node_in(m0, q),
            forall|c: Seq<char>| #[trigger] edited_here(m0, name@, plan.kind, target_path(c, name@))
                && !(node_in(m0, target_path(c, name@)) is Absent) && cs.subrange(0, i as int).contains(c)
                ==> features_settled(nodes_of(*doc), target_path(c, name@)),
            forall|j: int| 0 <= j < i ==> #[trigger] condition_ok(m0, cs[j], name@, plan.kind),
            forall|q: Seq<Seq<char>>| is_entry_path(q) ==> #[trigger] node_in(nodes_of(*doc), q) == if q.len() == 4 && cs.subrange(0, i as int).contains(q[1]) {
                expected(m0, name@, *plan, *caps, q)
            } else {
                node_in(m0, q)
            },
        decreases conds@.len() - i,
    {
        let ghost m = nodes_of(*doc);
        let c = conds[i].as_str();
        let ghost cv = c@;
        assert(cs[i as int] == cv);
        let cpath = vec!["target".to_owned(), c.to_owned()];
        assert(strs(cpath@) =~= condition_path(cv));
        assert(same_outline(node_in(m, condition_path(cv)), node_in(m0, condition_path(cv))));
        if node_shape(doc, &cpath) != Shape::Table {
            assert(!condition_ok(m0, cs[i as int], name@, plan.kind));
            return Err(ShapeError::Target(c.to_owned()));
        }
        let dpath = vec!["target".to_owned(), c.to_owned(), "dependencies".to_owned()];
        assert(strs(dpath@) =~= condition_section_path(cv));
        assert(same_outline(node_in(m, condition_section_path(cv)), node_in(m0, condition_section_path(cv))));
        let ghost q = target_path(cv, name@);
        assert(is_entry_path(q));
        assert(q[1] == cv);
        assert(!cs.subrange(0, i as int).contains(cv)) by {
            if cs.subrange(0, i as int).contains(cv) {
                let s0 = cs.subrange(0, i as int);
                let j = choose|j: int| 0 <= j < s0.len() && s0[j] == cv;
                assert(cs[j] == cs[i as int]);
            }
        }
        assert(node_in(m, q) == node_in(m0, q));
        match node_shape(doc, &dpath) {
            Shape::Other => {
                assert(!condition_ok(m0, cs[i as int], name@, plan.kind));
                return Err(ShapeError::TargetSection(c.to_owned()));
            },
            Shape::Absent => {},
            Shape::Table => {
                if plan.kind == DependencyType::Normal {
                    let path = vec!["target".to_owned(), c.to_owned(), "dependencies".to_owned(), name.to_owned()];
                    assert(strs(path@) =~= q);
                    match process_entry(doc, &path, plan, caps) {
                        Ok(()) => {},
                        Err(()) => {
                            assert(!condition_ok(m0, cs[i as int], name@, plan.kind));
                            return Err(ShapeError::Entry(path));
                        },
                    }
                    proof {
                        lemma_entry_frame(m, nodes_of(*doc), q);
                        assert(cs.contains(cv)) by {
                            assert(cs[i as int] == cv);
                        }
                        assert(edited_here(m0, name@, plan.kind, q));
                        let m2 = nodes_of(*doc);
                        if !(node_in(m0, q) is Absent) {
                            lemma_step_touch_target(m0, m, m2, cv, name@, *plan, *caps);
                        }
                        assert forall|c: Seq<char>| #[trigger] edited_here(m0, name@, plan.kind, target_path(c, name@))
                            && !(node_in(m0, target_path(c, name@)) is Absent) && cs.subrange(0, i as int).contains(c)
                            implies features_settled(m2, target_path(c, name@)) by {
                            assert(c != cv);
                            assert(is_entry_path(target_path(c, name@)));
                            assert(target_path(c, name@) != q) by {
                                assert(target_path(c, name@)[1] != q[1]);
                            }
                            lemma_settled_kept(m, m2, target_path(c, name@), q, node_in(m, q), *plan, *caps);
                        }
                        reveal(in_reach);
                        assert forall|qq: Seq<Seq<char>>| !in_reach(m0, name@, plan.kind, qq)
                            implies #[trigger] node_in(m2, qq) == node_in(m0, qq) by {
                            if !(node_in(m0, q) is Absent) {
                                assert(!near(q, qq));
                            }
                        }
                    }
                }
            },
        }
        proof {
            let m2 = nodes_of(*doc);
            let s0 = cs.subrange(0, i as int);
            let s1 = cs.subrange(0, i + 1);
            assert(condition_ok(m0, cs[i as int], name@, plan.kind));
            assert forall|qq: Seq<Seq<char>>| is_entry_path(qq) implies #[trigger] node_in(m2, qq) == if qq.len() == 4 && cs.subrange(0, i + 1).contains(qq[1]) {
                expected(m0, name@, *plan, *caps, qq)
            } else {
                node_in(m0, qq)
            } by {
                if qq.len() == 4 && s1.contains(qq[1]) && !s0.contains(qq[1]) {
                    let j = choose|j: int| 0 <= j < s1.len() && s1[j] == qq[1];
                    if j < i {
                        assert(s0[j] == qq[1]);
                    }
                    assert(qq[1] == cv);
                    if qq != q {
                        assert(!edited_here(m0, name@, plan.kind, qq));
                    }
                } else if qq.len() == 4 && s0.contains(qq[1]) {
                    let j = choose|j: int| 0 <= j < s0.len() && s0[j] == qq[1];
                    assert(s1[j] == qq[1]);
                } else if qq.len() == 4 && qq[1] == cv {
                    assert(s1[i as int] == cv);
                }
            }
        }
        i = i + 1;
    }
    proof {
        assert(cs.subrange(0, cs.len() as int) =~= cs);
        assert forall|qq: Seq<Seq<char>>| is_entry_path(qq) && qq.len() == 4 && !cs.contains(qq[1])
            implies !edited_here(m0, name@, plan.kind, qq) by {}
    }
    Ok(())
}

proof fn lemma_same_layout_trans(a: Map<Seq<Seq<char>>, EntryView>, b: Map<Seq<Seq<char>>, EntryView>, c: Map<Seq<Seq<char>>, EntryView>)
    requires
        same_layout(a, b),
        same_layout(b, c),
    ensures
        same_layout(a, c),
        conditions(a) == conditions(c),
{
    assert forall|s: Seq<char>| same_outline(#[trigger] node_in(a, seq![s]), node_in(c, seq![s])) by {
        assert(same_outline(node_in(a, seq![s]), node_in(b, seq![s])));
        assert(same_outline(node_in(b, seq![s]), node_in(c, seq![s])));
    }
    assert forall|x: Seq<char>| same_outline(#[trigger] node_in(a, condition_path(x)), node_in(c, condition_path(x))) by {
        assert(same_outline(node_in(a, condition_path(x)), node_in(b, condition_path(x))));
        assert(same_outline(node_in(b, condition_path(x)), node_in(c, condition_path(x))));
    }
    assert forall|x: Seq<char>| same_outline(#[trigger] node_in(a, condition_section_path(x)), node_in(c, condition_section_path(x))) by {
        assert(same_outline(node_in(a, condition_section_path(x)), node_in(b, condition_section_path(x))));
        assert(same_outline(node_in(b, condition_section_path(x)), node_in(c, condition_section_path(x))));
    }
    assert(same_outline(node_in(a, seq![target_key()]), node_in(c, seq![target_key()])));
}

/// Edits the declaration of the dependency `name` in every dependency table of
/// the document that the plan is for: `[dependencies]`,
/// `[build-dependencies]` or `[dev-dependencies]`, and, for normal
/// dependencies, each `[target.<condition>.dependencies]`. Everything outside
/// the edited fields of those declarations keeps its value; an existing
/// `features` array is refilled in place, so its key and the comments around
/// it stay, and an edited inline table is respaced. The pass fails, and a
/// caller keeps its unedited copy, exactly when a table it looks for, or a
/// declaration it edits, has the wrong shape; a `features` field that holds
/// anything but strings counts as a wrong shape. Whatever the result, nothing
/// out of the pass's reach has changed.
#[verifier::rlimit(60)]
pub fn try_process_dependency(doc: &mut Document, name: &str, plan: &EditPlan, caps: &Capabilities) -> (r: Result<(), ShapeError>)
    ensures
        r is Ok <==> pass_ok(nodes_of(*old(doc)), name@, plan.kind),
        r is Ok ==> pass_outcome(nodes_of(*old(doc)), nodes_of(*final(doc)), name@, *plan, *caps),
        pass_frame(nodes_of(*old(doc)), nodes_of(*final(doc)), name@, *plan, *caps),
{
    proof {
        lemma_literals();
        reveal_strlit("dependencies");
        reveal_strlit("build-dependencies");
        reveal_strlit("dev-dependencies");
    }
    let ghost m0 = nodes_of(*doc);
    let ghost pn = section_path(section_of(DependencyType::Normal), name@);
    let ghost pb = section_path(section_of(DependencyType::Build), name@);
    let ghost pd = section_path(section_of(DependencyType::Dev), name@);
    assert(is_entry_path(pn) && is_entry_path(pb) && is_entry_path(pd));
    assert(pn != pb && pn != pd && pb != pd) by {
        assert(pn[0] != pb[0] && pn[0] != pd[0] && pb[0] != pd[0]);
    }
    if let Err(e) = process_section(doc, "dependencies", DependencyType::Normal, name, plan, caps) {
        return Err(e);
    }
    let ghost m1 = nodes_of(*doc);
    proof {
        lemma_entry_frame(m0, m1, pn);
        lemma_step_touch(m0, m0, m1, pn, name@, *plan, *caps);
    }
    if let Err(e) = process_section(doc, "build-dependencies", DependencyType::Build, name, plan, caps) {
        assert(same_outline(node_in(m1, seq![section_of(DependencyType::Build)]), node_in(m0, seq![section_of(DependencyType::Build)])));
        assert(!section_ok(m0, DependencyType::Build, name@, plan.kind));
        return Err(e);
    }
    let ghost m2 = nodes_of(*doc);
    proof {
        lemma_entry_frame(m1, m2, pb);
        lemma_step_touch(m0, m1, m2, pb, name@, *plan, *caps);
        lemma_same_layout_trans(m0, m1, m2);
        assert(same_outline(node_in(m1, seq![section_of(DependencyType::Build)]), node_in(m0, seq![section_of(DependencyType::Build)])));
    }
    if let Err(e) = process_section(doc, "dev-dependencies", DependencyType::Dev, name, plan, caps) {
        assert(same_outline(node_in(m2, seq![section_of(DependencyType::Dev)]), node_in(m0, seq![section_of(DependencyType::Dev)])));
        assert(!section_ok(m0, DependencyType::Dev, name@, plan.kind));
        return Err(e);
    }
    let ghost m3 = nodes_of(*doc);
    proof {
        lemma_entry_frame(m2, m3, pd);
        lemma_step_touch(m0, m2, m3, pd, name@, *plan, *caps);
        lemma_same_layout_trans(m0, m2, m3);
        assert(same_outline(node_in(m2, seq![section_of(DependencyType::Dev)]), node_in(m0, seq![section_of(DependencyType::Dev)])));
        assert(section_ok(m0, DependencyType::Normal, name@, plan.kind));
        assert(section_ok(m0, DependencyType::Build, name@, plan.kind));
        assert(section_ok(m0, DependencyType::Dev, name@, plan.kind));
        // What the target conditions see is what the document held at first.
        assert(conditions(m3) == conditions(m0));
        assert forall|c: Seq<char>| condition_ok(m3, c, name@, plan.kind) == condition_ok(m0, c, name@, plan.kind) by {
            assert(same_outline(node_in(m3, condition_path(c)), node_in(m0, condition_path(c))));
            assert(same_outline(node_in(m3, condition_section_path(c)), node_in(m0, condition_section_path(c))));
            let q = target_path(c, name@);
            assert(is_entry_path(q));
            assert(q != pn && q != pb && q != pd);
        }
        assert(targets_ok(m3, name@, plan.kind) == targets_ok(m0, name@, plan.kind)) by {
            assert(same_outline(node_in(m3, seq![target_key()]), node_in(m0, seq![target_key()])));
            if targets_ok(m0, name@, plan.kind) {
                assert forall|i: int| 0 <= i < conditions(m3).len() implies #[trigger] condition_ok(m3, conditions(m3)[i], name@, plan.kind) by {
                    assert(condition_ok(m0, conditions(m0)[i], name@, plan.kind));
                }
            }
            if targets_ok(m3, name@, plan.kind) {
                assert forall|i: int| 0 <= i < conditions(m0).len() implies #[trigger] condition_ok(m0, conditions(m0)[i], name@, plan.kind) by {
                    assert(condition_ok(m3, conditions(m3)[i], name@, plan.kind));
                }
            }
        }
    }
    proof {
        assert forall|q: Seq<Seq<char>>| is_entry_path(q) && q.len() == 4 implies #[trigger] node_in(m3, q) == node_in(m0, q) by {
            assert(q != pn && q != pb && q != pd);
        }
    }
    let res = process_targets(doc, name, plan, caps);
    proof {
        lemma_pass_touch(m0, m3, nodes_of(*doc), name@, *plan, *caps);
    }
    if res.is_err() {
        return res;
    }
    proof {
        let m4 = nodes_of(*doc);
        lemma_same_layout_trans(m0, m3, m4);
        assert forall|q: Seq<Seq<char>>| is_entry_path(q) implies #[trigger] node_in(m4, q) == expected(m0, name@, *plan, *caps, q) by {
            if q.len() == 4 {
                assert(q != pn && q != pb && q != pd);
                assert(node_in(m3, q) == node_in(m0, q));
                assert(same_outline(node_in(m3, condition_section_path(q[1])), node_in(m0, condition_section_path(q[1]))));
                assert(expected(m3, name@, *plan, *caps, q) == expected(m0, name@, *plan, *caps, q));
            } else {
                assert(node_in(m4, q) == node_in(m3, q));
                if q == pn {
                    assert(node_in(m3, q) == node_in(m1, q));
                } else if q == pb {
                    assert(node_in(m3, q) == node_in(m2, q));
                    assert(node_in(m1, q) == node_in(m0, q));
                } else if q == pd {
                    assert(node_in(m2, q) == node_in(m0, q));
                } else {
                    assert(node_in(m3, q) == node_in(m0, q));
                }
            }
        }
        lemma_step_reach(m0, m0, m1, pn, name@, plan.kind);
        lemma_step_reach(m0, m1, m2, pb, name@, plan.kind);
        lemma_step_reach(m0, m2, m3, pd, name@, plan.kind);
        let ps = section_path(section_of(plan.kind), name@);
        if node_in(m0, ps) is Absent {
            assert(node_in(m3, pn) == node_in(m1, pn));
            assert(node_in(m3, pb) == node_in(m2, pb));
            assert(node_in(m1, pb) == node_in(m0, pb));
            assert(node_in(m2, pd) == node_in(m0, pd));
            assert(node_in(m3, ps) is Absent);
        }
        assert forall|q: Seq<Seq<char>>| is_entry_path(q) && q.len() == 4 implies #[trigger] node_in(m3, q) == node_in(m0, q) by {
            assert(q != pn && q != pb && q != pd);
        }
        lemma_pass_reach(m0, m3, m4, name@, plan.kind);
        if edited_here(m0, name@, plan.kind, ps) && !(node_in(m0, ps) is Absent) {
            match plan.kind {
                DependencyType::Normal => {
                    lemma_settled_step(m1, m2, pn, pb, *plan, *caps);
                    lemma_settled_step(m2, m3, pn, pd, *plan, *caps);
                },
                DependencyType::Build => {
                    lemma_settled_step(m2, m3, pb, pd, *plan, *caps);
                },
                DependencyType::Dev => {},
            }
            lemma_settled_through_targets(m3, m4, ps, name@, *plan, *caps);
        }
        assert forall|p: Seq<Seq<char>>| #[trigger] edited_here(m0, name@, plan.kind, p) && !(node_in(m0, p) is Absent)
            implies features_settled(m4, p) by {
            if p.len() == 4 {
                assert(is_entry_path(p));
                assert(same_outline(node_in(m3, seq![section_of(plan.kind)]), node_in(m0, seq![section_of(plan.kind)])));
                assert(same_outline(node_in(m3, condition_section_path(p[1])), node_in(m0, condition_section_path(p[1]))));
                assert(p == target_path(p[1], name@));
                assert(edited_here(m3, name@, plan.kind, target_path(p[1], name@)));
            }
        }
    }
    Ok(())
}

/// The targets, edited after the sections, reach no node that the pass as a
/// whole does not reach.
proof fn lemma_pass_reach(
    m0: Map<Seq<Seq<char>>, EntryView>,
    m3: Map<Seq<Seq<char>>, EntryView>,
    m4: Map<Seq<Seq<char>>, EntryView>,
    name: Seq<char>,
    kind: DependencyType,
)
    requires
        same_layout(m0, m3),
        conditions(m3) == conditions(m0),
        forall|q: Seq<Seq<char>>| is_entry_path(q) && q.len() == 4 ==> #[trigger] node_in(m3, q) == node_in(m0, q),
        node_in(m0, section_path(section_of(kind), name)) is Absent
            ==> node_in(m3, section_path(section_of(kind), name)) is Absent,
        forall|q: Seq<Seq<char>>| !in_reach(m0, name, kind, q) ==> #[trigger] node_in(m3, q) == node_in(m0, q),
        forall|q: Seq<Seq<char>>| !in_reach(m3, name, kind, q) ==> #[trigger] node_in(m4, q) == node_in(m3, q),
    ensures
        forall|q: Seq<Seq<char>>| !in_reach(m0, name, kind, q) ==> #[trigger] node_in(m4, q) == node_in(m0, q),
{
    reveal(in_reach);
    lemma_literals();
    assert forall|q: Seq<Seq<char>>| !in_reach(m0, name, kind, q) implies #[trigger] node_in(m4, q) == node_in(m0, q) by {
        assert forall|p: Seq<Seq<char>>| #[trigger] edited_here(m3, name, kind, p) && !(node_in(m3, p) is Absent)
            implies !near(p, q) by {
            assert(same_outline(node_in(m3, seq![section_of(kind)]), node_in(m0, seq![section_of(kind)])));
            if p.len() == 4 {
                assert(same_outline(node_in(m3, condition_section_path(p[1])), node_in(m0, condition_section_path(p[1]))));
                assert(edited_here(m0, name, kind, p));
                assert(is_entry_path(p));
                assert(node_in(m3, p) == node_in(m0, p));
            } else {
                assert(edited_here(m0, name, kind, p));
            }
        }
        assert(!in_reach(m3, name, kind, q));
    }
}

/// A step that edits another declaration, or nothing, keeps a settled
/// `features` field settled.
proof fn lemma_settled_step(a: Map<Seq<Seq<char>>, EntryView>, b: Map<Seq<Seq<char>>, EntryView>, pi: Seq<Seq<char>>, pj: Seq<Seq<char>>, plan: EditPlan, caps: Capabilities)
    requires
        features_settled(a, pi),
        is_entry_path(pi),
        is_entry_path(pj),
        pi != pj,
        frame_in(a, b, pj, plan, caps) || b == a,
    ensures
        features_settled(b, pi),
{
    if b != a {
        lemma_settled_kept(a, b, pi, pj, node_in(a, pj), plan, caps);
    }
}

/// The target edits leave a section declaration's settled `features` field settled.
proof fn lemma_settled_through_targets(
    m3: Map<Seq<Seq<char>>, EntryView>,
    m4: Map<Seq<Seq<char>>, EntryView>,
    ps: Seq<Seq<char>>,
    name: Seq<char>,
    plan: EditPlan,
    caps: Capabilities,
)
    requires
        features_settled(m3, ps),
        ps.len() == 2 && is_entry_path(ps),
        forall|q: Seq<Seq<char>>| !target_touched(m3, name, plan, caps, q) ==> #[trigger] node_in(m4, q) == node_in(m3, q),
    ensures
        features_settled(m4, ps),
{
    reveal(target_touched);
    lemma_literals();
    assert forall|q: Seq<Seq<char>>| is_prefix(ps, q) implies #[trigger] node_in(m4, q) == node_in(m3, q) by {
        assert forall|c: Seq<char>| #[trigger] edited_here(m3, name, plan.kind, target_path(c, name))
            implies !near_in(target_path(c, name), q, node_in(m3, target_path(c, name)), plan, caps) by {
            let pj = target_path(c, name);
            assert(is_entry_path(pj));
            assert(pj != ps);
            lemma_apart(ps, pj, q);
            if is_prefix(pj.push(features_key()), q) {
                lemma_push_prefix(pj, features_key(), q);
            }
            if is_prefix(pj.push(default_features_key()), q) {
                lemma_push_prefix(pj, default_features_key(), q);
            }
            if is_prefix(pj.push(version_key()), q) {
                lemma_push_prefix(pj, version_key(), q);
            }
        }
    }
    let f = ps.push(features_key());
    assert(is_prefix(ps, ps)) by { assert(ps.subrange(0, ps.len() as int) =~= ps); }
    assert(is_prefix(ps, f)) by { assert(f.subrange(0, ps.len() as int) =~= ps); }
    assert forall|q: Seq<Seq<char>>| is_prefix(f, q) implies is_prefix(ps, q) by {
        lemma_push_prefix(ps, features_key(), q);
    }
    assert(node_in(m4, ps) == node_in(m3, ps));
    assert(node_in(m4, f) == node_in(m3, f));
}

/// The targets, edited after the sections, touch no node that the pass as a
/// whole does not touch.
proof fn lemma_pass_touch(
    m0: Map<Seq<Seq<char>>, EntryView>,
    m3: Map<Seq<Seq<char>>, EntryView>,
    m4: Map<Seq<Seq<char>>, EntryView>,
    name: Seq<char>,
    plan: EditPlan,
    caps: Capabilities,
)
    requires
        same_layout(m0, m3),
        conditions(m3) == conditions(m0),
        forall|q: Seq<Seq<char>>| is_entry_path(q) && q.len() == 4 ==> #[trigger] node_in(m3, q) == node_in(m0, q),
        forall|q: Seq<Seq<char>>| !touched(m0, name, plan, caps, q) ==> #[trigger] node_in(m3, q) == node_in(m0, q),
        forall|q: Seq<Seq<char>>| !target_touched(m3, name, plan, caps, q) ==> #[trigger] node_in(m4, q) == node_in(m3, q),
    ensures
        forall|q: Seq<Seq<char>>| !touched(m0, name, plan, caps, q) ==> #[trigger] node_in(m4, q) == node_in(m0, q),
{
    reveal(touched);
    reveal(target_touched);
    lemma_literals();
    assert forall|q: Seq<Seq<char>>| !touched(m0, name, plan, caps, q) implies #[trigger] node_in(m4, q) == node_in(m0, q) by {
        assert forall|c: Seq<char>| #[trigger] edited_here(m3, name, plan.kind, target_path(c, name))
            && !(node_in(m3, target_path(c, name)) is Absent)
            implies !near_in(target_path(c, name), q, node_in(m3, target_path(c, name)), plan, caps) by {
            let p = target_path(c, name);
            assert(same_outline(node_in(m3, seq![section_of(plan.kind)]), node_in(m0, seq![section_of(plan.kind)])));
            assert(same_outline(node_in(m3, condition_section_path(c)), node_in(m0, condition_section_path(c))));
            assert(p[1] == c);
            assert(edited_here(m0, name, plan.kind, p));
            assert(is_entry_path(p));
            assert(node_in(m3, p) == node_in(m0, p));
        }
        assert(!target_touched(m3, name, plan, caps, q));
    }
}

/// A step that edits the declaration at `p`, where the pass edits it and it
/// is present, or changes nothing, leaves every node out of the pass's reach.
proof fn lemma_step_reach(
    m0: Map<Seq<Seq<char>>, EntryView>,
    a: Map<Seq<Seq<char>>, EntryView>,
    b: Map<Seq<Seq<char>>, EntryView>,
    p: Seq<Seq<char>>,
    name: Seq<char>,
    kind: DependencyType,
)
    requires
        near_frame(a, b, p),
        (edited_here(m0, name, kind, p) && !(node_in(m0, p) is Absent)) || b == a,
    ensures
        forall|q: Seq<Seq<char>>| !in_reach(m0, name, kind, q) ==> #[trigger] node_in(b, q) == node_in(a, q),
{
    reveal(in_reach);
}

/// A node the pass may touch is one the pass may reach.
proof fn lemma_touched_in_reach(m0: Map<Seq<Seq<char>>, EntryView>, name: Seq<char>, plan: EditPlan, caps: Capabilities, q: Seq<Seq<char>>)
    requires
        touched(m0, name, plan, caps, q),
    ensures
        in_reach(m0, name, plan.kind, q),
{
    reveal(touched);
    reveal(in_reach);
    let p = choose|p: Seq<Seq<char>>| #[trigger] edited_here(m0, name, plan.kind, p) && !(node_in(m0, p) is Absent)
        && near_in(p, q, node_in(m0, p), plan, caps);
    lemma_field_keys_differ();
    if q != p && !holder_of_field(p, q) {
        let k = if is_prefix(p.push(features_key()), q) {
            features_key()
        } else if is_prefix(p.push(default_features_key()), q) {
            default_features_key()
        } else {
            version_key()
        };
        assert(is_prefix(p.push(k), q));
        lemma_push_prefix(p, k, q);
        assert(q.len() > p.len());
        lemma_below_key(p, q);
        assert(near(p, q));
    }
}

/// Whatever a pass returns, a node out of its reach keeps its value.
proof fn lemma_frame_off_reach(
    m0: Map<Seq<Seq<char>>, EntryView>,
    m1: Map<Seq<Seq<char>>, EntryView>,
    name: Seq<char>,
    plan: EditPlan,
    caps: Capabilities,
)
    requires
        pass_frame(m0, m1, name, plan, caps),
    ensures
        forall|q: Seq<Seq<char>>| !in_reach(m0, name, plan.kind, q) ==> #[trigger] node_in(m1, q) == node_in(m0, q),
{
    assert forall|q: Seq<Seq<char>>| !in_reach(m0, name, plan.kind, q) implies #[trigger] node_in(m1, q) == node_in(m0, q) by {
        if touched(m0, name, plan, caps, q) {
            lemma_touched_in_reach(m0, name, plan, caps, q);
        }
    }
}

/// A pass for one kind of dependency leaves everything in the tables of the
/// other kinds as it was: each declaration there, with all its fields. This
/// holds whether the pass succeeds or stops on a wrong shape.
pub proof fn other_kinds_untouched(
    m0: Map<Seq<Seq<char>>, EntryView>,
    m1: Map<Seq<Seq<char>>, EntryView>,
    name: Seq<char>,
    plan: EditPlan,
    caps: Capabilities,
    k: DependencyType,
)
    requires
        pass_frame(m0, m1, name, plan, caps),
        k != plan.kind,
    ensures
        forall|q: Seq<Seq<char>>| strictly_below(seq![section_of(k)], q)
            ==> #[trigger] node_in(m1, q) == node_in(m0, q),
        k == DependencyType::Normal ==> forall|q: Seq<Seq<char>>| strictly_below(seq![target_key()], q)
            ==> #[trigger] node_in(m1, q) == node_in(m0, q),
{
    lemma_frame_off_reach(m0, m1, name, plan, caps);
    assert forall|q: Seq<Seq<char>>| strictly_below(seq![section_of(k)], q) || (k == DependencyType::Normal && strictly_below(seq![target_key()], q))
        implies #[trigger] node_in(m1, q) == node_in(m0, q) by {
        lemma_other_kind_out_of_reach(m0, name, plan.kind, k, q);
    }
}

proof fn lemma_other_kind_out_of_reach(m0: Map<Seq<Seq<char>>, EntryView>, name: Seq<char>, kind: DependencyType, k: DependencyType, q: Seq<Seq<char>>)
    requires
        k != kind,
        strictly_below(seq![section_of(k)], q) || (k == DependencyType::Normal && strictly_below(seq![target_key()], q)),
    ensures
        !in_reach(m0, name, kind, q),
{
    reveal(in_reach);
    lemma_literals();
    assert(q[0] == q.subrange(0, 1)[0]);
    assert forall|p: Seq<Seq<char>>| #[trigger] edited_here(m0, name, kind, p) implies !near(p, q) by {
        assert(p[0] == section_of(kind) || p[0] == target_key());
        if strictly_below(p, q) {
            assert(q.subrange(0, p.len() as int)[0] == q[0]);
        }
    }
}

/// A declaration under `target.<c>.dependencies` is edited exactly as one
/// under `[dependencies]` is; other declarations under `target` are left as
/// they were, and a condition that does not declare the dependency is left
/// whole, as it was.
pub proof fn target_sections_edited_alike(
    m0: Map<Seq<Seq<char>>, EntryView>,
    m1: Map<Seq<Seq<char>>, EntryView>,
    name: Seq<char>,
    plan: EditPlan,
    caps: Capabilities,
    c: Seq<char>,
)
    requires
        pass_outcome(m0, m1, name, plan, caps),
        plan.kind == DependencyType::Normal,
        conditions(m0).contains(c),
        node_in(m0, condition_section_path(c)) is Table,
    ensures
        node_in(m1, target_path(c, name)) == entry_after(
            node_in(m0, target_path(c, name)),
            plan.default_toggle,
            requests_view(plan.requests@),
            plan.kind,
            caps,
        ),
        node_in(m0, seq![section_of(DependencyType::Normal)]) is Table ==> node_in(m1, section_path(section_of(DependencyType::Normal), name))
            == entry_after(
            node_in(m0, section_path(section_of(DependencyType::Normal), name)),
            plan.default_toggle,
            requests_view(plan.requests@),
            plan.kind,
            caps,
        ),
        forall|c2: Seq<char>, n: Seq<char>| n != name
            ==> #[trigger] node_in(m1, target_path(c2, n)) == node_in(m0, target_path(c2, n)),
        forall|c2: Seq<char>, q: Seq<Seq<char>>|
            #![trigger node_in(m0, target_path(c2, name)), node_in(m1, q)]
            node_in(m0, target_path(c2, name)) is Absent && is_prefix(condition_path(c2), q)
            ==> node_in(m1, q) == node_in(m0, q),
{
    lemma_literals();
    let q = target_path(c, name);
    assert(is_entry_path(q));
    assert(q[1] == c);
    assert(edited_here(m0, name, plan.kind, q));
    let p = section_path(section_of(DependencyType::Normal), name);
    assert(is_entry_path(p));
    assert forall|c2: Seq<char>, n: Seq<char>| n != name
        implies #[trigger] node_in(m1, target_path(c2, n)) == node_in(m0, target_path(c2, n)) by {
        lemma_other_name_out_of_reach(m0, name, plan.kind, c2, n);
    }
    assert forall|c2: Seq<char>, qq: Seq<Seq<char>>|
        #![trigger node_in(m0, target_path(c2, name)), node_in(m1, qq)]
        node_in(m0, target_path(c2, name)) is Absent && is_prefix(condition_path(c2), qq)
        implies node_in(m1, qq) == node_in(m0, qq) by {
        lemma_quiet_condition_out_of_reach(m0, name, plan.kind, c2, qq);
    }
}

proof fn lemma_other_name_out_of_reach(m0: Map<Seq<Seq<char>>, EntryView>, name: Seq<char>, kind: DependencyType, c2: Seq<char>, n: Seq<char>)
    requires
        n != name,
    ensures
        !in_reach(m0, name, kind, target_path(c2, n)),
{
    reveal(in_reach);
    lemma_literals();
    let q = target_path(c2, n);
    assert forall|pp: Seq<Seq<char>>| #[trigger] edited_here(m0, name, kind, pp) implies !near(pp, q) by {
        if pp.len() == 4 {
            assert(pp == target_path(pp[1], name));
            assert(q[3] == n && pp[3] == name);
            assert(q != pp);
            assert(q.len() == 4);
            assert(!holder_of_field(pp, q));
        } else {
            assert(pp[0] == section_of(kind));
            if strictly_below(pp, q) {
                assert(q.subrange(0, 2)[0] == q[0]);
            }
        }
    }
}

proof fn lemma_quiet_condition_out_of_reach(m0: Map<Seq<Seq<char>>, EntryView>, name: Seq<char>, kind: DependencyType, c2: Seq<char>, qq: Seq<Seq<char>>)
    requires
        node_in(m0, target_path(c2, name)) is Absent,
        is_prefix(condition_path(c2), qq),
    ensures
        !in_reach(m0, name, kind, qq),
{
    reveal(in_reach);
    lemma_literals();
    assert(qq.subrange(0, 2) =~= condition_path(c2));
    assert(qq[0] == target_key() && qq[1] == c2) by {
        assert(qq[0] == qq.subrange(0, 2)[0]);
        assert(qq[1] == qq.subrange(0, 2)[1]);
    }
    assert forall|pp: Seq<Seq<char>>| #[trigger] edited_here(m0, name, kind, pp) && !(node_in(m0, pp) is Absent)
        implies !near(pp, qq) by {
        if pp.len() == 4 {
            assert(pp == target_path(pp[1], name));
            assert(pp[1] != c2);
            if strictly_below(pp, qq) {
                assert(qq.subrange(0, 4)[1] == qq[1]);
            }
            if holder_of_field(pp, qq) {
                assert(qq[1] == pp[1]);
            }
        } else {
            assert(pp[0] == section_of(kind));
            if strictly_below(pp, qq) {
                assert(qq.subrange(0, 2)[0] == qq[0]);
            }
        }
    }
}

/// A condition under `target` that does not declare the dependency is left
/// whole, as it was, and so is every declaration of another dependency under
/// `target`, whether the pass succeeds or stops on a wrong shape.
pub proof fn quiet_conditions_untouched(
    m0: Map<Seq<Seq<char>>, EntryView>,
    m1: Map<Seq<Seq<char>>, EntryView>,
    name: Seq<char>,
    plan: EditPlan,
    caps: Capabilities,
)
    requires
        pass_frame(m0, m1, name, plan, caps),
    ensures
        forall|c2: Seq<char>, q: Seq<Seq<char>>|
            #![trigger node_in(m0, target_path(c2, name)), node_in(m1, q)]
            node_in(m0, target_path(c2, name)) is Absent && is_prefix(condition_path(c2), q)
            ==> node_in(m1, q) == node_in(m0, q),
        forall|c2: Seq<char>, n: Seq<char>| n != name
            ==> #[trigger] node_in(m1, target_path(c2, n)) == node_in(m0, target_path(c2, n)),
{
    lemma_frame_off_reach(m0, m1, name, plan, caps);
    assert forall|c2: Seq<char>, qq: Seq<Seq<char>>|
        #![trigger node_in(m0, target_path(c2, name)), node_in(m1, qq)]
        node_in(m0, target_path(c2, name)) is Absent && is_prefix(condition_path(c2), qq)
        implies node_in(m1, qq) == node_in(m0, qq) by {
        lemma_quiet_condition_out_of_reach(m0, name, plan.kind, c2, qq);
    }
    assert forall|c2: Seq<char>, n: Seq<char>| n != name
        implies #[trigger] node_in(m1, target_path(c2, n)) == node_in(m0, target_path(c2, n)) by {
        lemma_other_name_out_of_reach(m0, name, plan.kind, c2, n);
    }
}

/// The fields of an edited declaration that the edit does not touch (its
/// `path`, `git`, `optional`, ...) are kept as they were, with all they hold.
pub proof fn other_fields_kept(
    m0: Map<Seq<Seq<char>>, EntryView>,
    m1: Map<Seq<Seq<char>>, EntryView>,
    name: Seq<char>,
    plan: EditPlan,
    caps: Capabilities,
    p: Seq<Seq<char>>,
    k: Seq<char>,
)
    requires
        pass_outcome(m0, m1, name, plan, caps),
        edited_here(m0, name, plan.kind, p),
        !is_field_key(k),
    ensures
        forall|q: Seq<Seq<char>>| is_prefix(p.push(k), q) ==> #[trigger] node_in(m1, q) == node_in(m0, q),
{
    assert forall|q: Seq<Seq<char>>| is_prefix(p.push(k), q) implies #[trigger] node_in(m1, q) == node_in(m0, q) by {
        lemma_field_out_of_reach(m0, name, plan.kind, p, k, q);
    }
}

proof fn lemma_field_out_of_reach(m0: Map<Seq<Seq<char>>, EntryView>, name: Seq<char>, kind: DependencyType, p: Seq<Seq<char>>, k: Seq<char>, q: Seq<Seq<char>>)
    requires
        edited_here(m0, name, kind, p),
        !is_field_key(k),
        is_prefix(p.push(k), q),
    ensures
        !in_reach(m0, name, kind, q),
{
    reveal(in_reach);
    lemma_literals();
    assert(q.subrange(0, p.len() as int) =~= p.push(k).subrange(0, p.len() as int));
    assert(p.push(k).subrange(0, p.len() as int) =~= p);
    assert(q[p.len() as int] == q.subrange(0, p.len() as int + 1)[p.len() as int]);
    assert(q[p.len() as int] == k);
    assert(q[0] == p[0]) by {
        assert(q.subrange(0, p.len() as int)[0] == q[0]);
    }
    assert forall|pp: Seq<Seq<char>>| #[trigger] edited_here(m0, name, kind, pp) implies !near(pp, q) by {
        if pp.len() == p.len() {
            if pp != p {
                assert(p.len() == 4) by {
                    if p.len() == 2 {
                        assert(pp == section_path(section_of(kind), name));
                        assert(p == section_path(section_of(kind), name));
                    }
                }
                assert(pp == target_path(pp[1], name));
                assert(p == target_path(p[1], name));
                assert(pp[1] != p[1]);
                assert(q[1] == q.subrange(0, p.len() as int)[1]);
                if strictly_below(pp, q) {
                    assert(q.subrange(0, pp.len() as int)[1] == q[1]);
                }
            }
        } else {
            if strictly_below(pp, q) {
                assert(q.subrange(0, pp.len() as int)[0] == q[0]);
            }
            if holder_of_field(pp, q) {
                assert(q[0] == pp[0]);
            }
        }
    }
}

/// Where a pass edits in one document it edits in the document it leaves.
proof fn lemma_same_places(m0: Map<Seq<Seq<char>>, EntryView>, m1: Map<Seq<Seq<char>>, EntryView>, name: Seq<char>, kind: DependencyType, p: Seq<Seq<char>>)
    requires
        same_layout(m0, m1),
    ensures
        edited_here(m1, name, kind, p) == edited_here(m0, name, kind, p),
{
    lemma_same_layout_trans(m0, m1, m1);
    assert(same_outline(node_in(m1, seq![section_of(kind)]), node_in(m0, seq![section_of(kind)])));
    if p.len() == 4 {
        assert(same_outline(node_in(m1, condition_section_path(p[1])), node_in(m0, condition_section_path(p[1]))));
    }
}

/// A pass that succeeds leaves a document on which the next pass for the same
/// dependency and kind succeeds too, whatever it asks for.
pub proof fn success_is_kept(
    m0: Map<Seq<Seq<char>>, EntryView>,
    m1: Map<Seq<Seq<char>>, EntryView>,
    name: Seq<char>,
    plan: EditPlan,
    caps: Capabilities,
)
    requires
        pass_ok(m0, name, plan.kind),
        pass_outcome(m0, m1, name, plan, caps),
    ensures
        pass_ok(m1, name, plan.kind),
{
    lemma_literals();
    lemma_same_layout_trans(m0, m1, m1);
    let reqs = requests_view(plan.requests@);
    assert forall|k: DependencyType| #[trigger] section_ok(m1, k, name, plan.kind) by {
        let p = section_path(section_of(k), name);
        assert(is_entry_path(p));
        assert(same_outline(node_in(m1, seq![section_of(k)]), node_in(m0, seq![section_of(k)])));
        assert(section_ok(m0, k, name, plan.kind)) by {
            match k {
                DependencyType::Normal => {},
                DependencyType::Build => {},
                DependencyType::Dev => {},
            }
        }
        if edited_here(m0, name, plan.kind, p) {
            lemma_after_editable(node_in(m0, p), plan.default_toggle, reqs, plan.kind, caps);
        }
    }
    assert(conditions(m1) == conditions(m0));
    assert forall|i: int| 0 <= i < conditions(m1).len() implies #[trigger] condition_ok(m1, conditions(m1)[i], name, plan.kind) by {
        let c = conditions(m1)[i];
        assert(condition_ok(m0, conditions(m0)[i], name, plan.kind));
        assert(same_outline(node_in(m1, condition_path(c)), node_in(m0, condition_path(c))));
        assert(same_outline(node_in(m1, condition_section_path(c)), node_in(m0, condition_section_path(c))));
        let p = target_path(c, name);
        assert(is_entry_path(p));
        if edited_here(m0, name, plan.kind, p) {
            lemma_after_editable(node_in(m0, p), plan.default_toggle, reqs, plan.kind, caps);
        }
    }
    assert(same_outline(node_in(m1, seq![target_key()]), node_in(m0, seq![target_key()])));
}

/// A second pass that adds the same known feature again changes nothing in
/// the document that the first pass left.
pub proof fn add_twice_changes_nothing(
    m0: Map<Seq<Seq<char>>, EntryView>,
    m1: Map<Seq<Seq<char>>, EntryView>,
    m2: Map<Seq<Seq<char>>, EntryView>,
    name: Seq<char>,
    plan: EditPlan,
    caps: Capabilities,
    feature: Seq<char>,
)
    requires
        pass_ok(m0, name, plan.kind),
        pass_outcome(m0, m1, name, plan, caps),
        pass_outcome(m1, m2, name, plan, caps),
        requests_view(plan.requests@) == seq![add_request(plan.kind, feature)],
        plan.default_toggle == DefaultToggle::Keep,
        caps.is_known(feature),
    ensures
        forall|q: Seq<Seq<char>>| #[trigger] node_in(m2, q) == node_in(m1, q),
{
    assert forall|q: Seq<Seq<char>>| #[trigger] node_in(m2, q) == node_in(m1, q) by {
        if touched(m1, name, plan, caps, q) {
            reveal(touched);
            let p = choose|p: Seq<Seq<char>>| #[trigger] edited_here(m1, name, plan.kind, p) && !(node_in(m1, p) is Absent)
                && near_in(p, q, node_in(m1, p), plan, caps);
            lemma_second_add_at(m0, m1, m2, name, plan, caps, feature, p, q);
        }
    }
}

proof fn lemma_second_add_at(
    m0: Map<Seq<Seq<char>>, EntryView>,
    m1: Map<Seq<Seq<char>>, EntryView>,
    m2: Map<Seq<Seq<char>>, EntryView>,
    name: Seq<char>,
    plan: EditPlan,
    caps: Capabilities,
    feature: Seq<char>,
    p: Seq<Seq<char>>,
    q: Seq<Seq<char>>,
)
    requires
        pass_ok(m0, name, plan.kind),
        pass_outcome(m0, m1, name, plan, caps),
        pass_outcome(m1, m2, name, plan, caps),
        requests_view(plan.requests@) == seq![add_request(plan.kind, feature)],
        plan.default_toggle == DefaultToggle::Keep,
        caps.is_known(feature),
        edited_here(m1, name, plan.kind, p),
        !(node_in(m1, p) is Absent),
        near_in(p, q, node_in(m1, p), plan, caps),
    ensures
        node_in(m2, q) == node_in(m1, q),
{
    lemma_same_places(m0, m1, name, plan.kind, p);
    assert(is_entry_path(p)) by {
        lemma_literals();
    }
    let e0 = node_in(m0, p);
    lemma_edited_editable(m0, name, plan.kind, p);
    lemma_add_after_add(e0, plan.kind, feature, caps);
    assert(node_in(m1, p) == entry_after(e0, plan.default_toggle, requests_view(plan.requests@), plan.kind, caps));
    assert(!(e0 is Absent));
    assert(features_settled(m1, p));
    assert(features_settled(m2, p));
    let f = p.push(features_key());
    if q != p {
        assert(is_prefix(f, q));
        if q.len() == f.len() {
            assert(q.subrange(0, q.len() as int) =~= q);
            assert(q == f);
        } else {
            assert(strictly_below(f, q));
        }
    }
}

/// A declaration that a successful pass edits can be edited.
proof fn lemma_edited_editable(m: Map<Seq<Seq<char>>, EntryView>, name: Seq<char>, kind: DependencyType, p: Seq<Seq<char>>)
    requires
        pass_ok(m, name, kind),
        edited_here(m, name, kind, p),
    ensures
        editable(node_in(m, p)),
{
    if p == section_path(section_of(kind), name) && node_in(m, seq![section_of(kind)]) is Table {
        assert(section_ok(m, kind, name, kind)) by {
            match kind {
                DependencyType::Normal => {},
                DependencyType::Build => {},
                DependencyType::Dev => {},
            }
        }
    } else {
        let c = p[1];
        let i = choose|i: int| 0 <= i < conditions(m).len() && conditions(m)[i] == c;
        assert(condition_ok(m, conditions(m)[i], name, kind));
        assert(p == target_path(c, name));
    }
}

/// A shorthand declaration `"v"` that one pass gives a known feature and the
/// next pass takes it from is again `"v"`; the second pass succeeds wherever
/// the first did.
pub proof fn shorthand_round_trip(
    m0: Map<Seq<Seq<char>>, EntryView>,
    m1: Map<Seq<Seq<char>>, EntryView>,
    m2: Map<Seq<Seq<char>>, EntryView>,
    name: Seq<char>,
    add: EditPlan,
    remove: EditPlan,
    caps: Capabilities,
    feature: Seq<char>,
    p: Seq<Seq<char>>,
    v: Seq<char>,
)
    requires
        pass_ok(m0, name, add.kind),
        pass_outcome(m0, m1, name, add, caps),
        pass_outcome(m1, m2, name, remove, caps),
        remove.kind == add.kind,
        requests_view(add.requests@) == seq![add_request(add.kind, feature)],
        requests_view(remove.requests@) == seq![remove_request(add.kind, feature)],
        add.default_toggle == DefaultToggle::Keep,
        remove.default_toggle == DefaultToggle::Keep,
        caps.is_known(feature),
        edited_here(m0, name, add.kind, p),
        node_in(m0, p) == EntryView::Text(v),
    ensures
        pass_ok(m1, name, add.kind),
        node_in(m2, p) == EntryView::Text(v),
{
    success_is_kept(m0, m1, name, add, caps);
    lemma_same_places(m0, m1, name, add.kind, p);
    assert(is_entry_path(p)) by {
        lemma_literals();
    }
    shorthand_gains_and_loses_feature(v, feature, add.kind, caps);
}

/// A declaration that one pass gives a known feature it lacked, and the next
/// pass takes that feature from, ends as one pass with no feature request
/// leaves it: the same feature list in the same order, the same fields (see
/// `other_fields_kept` for what lies under them), and a shorthand again where
/// it was one. The second pass succeeds wherever the first did.
pub proof fn add_then_remove_round_trip(
    m0: Map<Seq<Seq<char>>, EntryView>,
    m1: Map<Seq<Seq<char>>, EntryView>,
    m2: Map<Seq<Seq<char>>, EntryView>,
    name: Seq<char>,
    add: EditPlan,
    remove: EditPlan,
    caps: Capabilities,
    feature: Seq<char>,
    p: Seq<Seq<char>>,
)
    requires
        pass_ok(m0, name, add.kind),
        pass_outcome(m0, m1, name, add, caps),
        pass_outcome(m1, m2, name, remove, caps),
        remove.kind == add.kind,
        requests_view(add.requests@) == seq![add_request(add.kind, feature)],
        requests_view(remove.requests@) == seq![remove_request(add.kind, feature)],
        add.default_toggle == DefaultToggle::Keep,
        remove.default_toggle == DefaultToggle::Keep,
        caps.is_known(feature),
        edited_here(m0, name, add.kind, p),
        !(node_in(m0, p) is Absent),
        !listed(table_of(node_in(m0, p)).features).contains(feature),
    ensures
        pass_ok(m1, name, add.kind),
        node_in(m2, p) == entry_after(node_in(m0, p), DefaultToggle::Keep, Seq::<RequestView>::empty(), add.kind, caps),
        listed(table_of(node_in(m2, p)).features) == listed(table_of(node_in(m0, p)).features),
{
    success_is_kept(m0, m1, name, add, caps);
    lemma_same_places(m0, m1, name, add.kind, p);
    lemma_edited_editable(m0, name, add.kind, p);
    assert(is_entry_path(p)) by {
        lemma_literals();
    }
    add_then_remove_is_no_request(node_in(m0, p), add.kind, feature, caps);
}

} // verus!
