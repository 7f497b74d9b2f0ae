//! The declaration of one dependency, as values, and what an edit pass makes of it.
use vstd::prelude::*;
use crate::features::{add_request, add_then_remove_restores, apply_requests, lemma_apply_two, lemma_remove_first_absent, lemma_remove_pushed, remove_first, remove_request, Capabilities};
use crate::request::{DefaultToggle, DependencyType, RequestView};

verus! {

/// The `features` field of a dependency table.
pub enum ListView {
    /// No such field.
    Missing,
    /// An array of strings.
    Strings(Seq<Seq<char>>),
    /// Anything else.
    Invalid,
}

/// A dependency declared as a table, inline (`{ .. }`) or as a section of its own.
pub struct TableView {
    pub inline: bool,
    /// The keys of the table, in order.
    pub keys: Seq<Seq<char>>,
    /// The `version` field, where it is a string.
    pub version: Option<Seq<char>>,
    /// The `default-features` field, where it is a boolean.
    pub default_features: Option<bool>,
    pub features: ListView,
}

/// What a dependency table holds under one dependency name.
pub enum EntryView {
    /// The name is not declared.
    Absent,
    /// The shorthand form: a bare version string.
    Text(Seq<char>),
    Table(TableView),
    /// A value of any other type.
    Other,
}

pub open spec fn version_key() -> Seq<char> {
    "version"@
}

pub open spec fn features_key() -> Seq<char> {
    "features"@
}

pub open spec fn default_features_key() -> Seq<char> {
    "default-features"@
}

/// Whether `k` names one of the fields an edit touches.
pub open spec fn is_field_key(k: Seq<char>) -> bool {
    k == version_key() || k == features_key() || k == default_features_key()
}

/// The keys after `k` is set: a new key goes last, an existing one keeps its place.
pub open spec fn key_set(keys: Seq<Seq<char>>, k: Seq<char>) -> Seq<Seq<char>> {
    if keys.contains(k) {
        keys
    } else {
        keys.push(k)
    }
}

/// The inline table `{ version = v }` that a shorthand declaration stands for.
pub open spec fn expanded(v: Seq<char>) -> TableView {
    TableView {
        inline: true,
        keys: seq![version_key()],
        version: Some(v),
        default_features: None,
        features: ListView::Missing,
    }
}

/// The table with field `k` taken out.
pub open spec fn without_field(t: TableView, k: Seq<char>) -> TableView {
    TableView {
        inline: t.inline,
        keys: remove_first(t.keys, k),
        version: if k == version_key() { None } else { t.version },
        default_features: if k == default_features_key() { None } else { t.default_features },
        features: if k == features_key() { ListView::Missing } else { t.features },
    }
}

/// The table with `default-features = false` set.
pub open spec fn with_default_off(t: TableView) -> TableView {
    TableView {
        keys: key_set(t.keys, default_features_key()),
        default_features: Some(false),
        ..t
    }
}

/// The table with its `features` field set to the strings `list`.
pub open spec fn with_list(t: TableView, list: Seq<Seq<char>>) -> TableView {
    TableView { keys: key_set(t.keys, features_key()), features: ListView::Strings(list), ..t }
}

/// The table after the default-features toggle.
pub open spec fn toggled(t: TableView, toggle: DefaultToggle) -> TableView {
    match toggle {
        DefaultToggle::Keep => t,
        DefaultToggle::Disable => with_default_off(t),
        DefaultToggle::Enable => without_field(t, default_features_key()),
    }
}

/// The feature names of a `features` field.
pub open spec fn listed(l: ListView) -> Seq<Seq<char>> {
    match l {
        ListView::Strings(s) => s,
        _ => Seq::empty(),
    }
}

/// The table with the feature list `list`: an empty list leaves no field behind.
pub open spec fn with_features(t: TableView, list: Seq<Seq<char>>) -> TableView {
    if list.len() == 0 {
        without_field(t, features_key())
    } else {
        with_list(t, list)
    }
}

/// The smallest declaration that says what `t` says: a table that holds a
/// string version and nothing else becomes that version string.
pub open spec fn collapsed(t: TableView) -> EntryView {
    if t.keys == seq![version_key()] && t.version is Some {
        EntryView::Text(t.version->Some_0)
    } else {
        EntryView::Table(t)
    }
}

/// The table after the toggle, the feature requests and the collapse.
pub open spec fn table_after(
    t: TableView,
    toggle: DefaultToggle,
    reqs: Seq<RequestView>,
    kind: DependencyType,
    caps: Capabilities,
) -> EntryView {
    let t1 = toggled(t, toggle);
    collapsed(with_features(t1, apply_requests(listed(t.features), reqs, kind, caps)))
}

/// Whether an edit pass can work on the declaration.
pub open spec fn editable(e: EntryView) -> bool {
    match e {
        EntryView::Absent => true,
        EntryView::Text(_) => true,
        EntryView::Table(t) => !(t.features is Invalid),
        EntryView::Other => false,
    }
}

/// The declaration after an edit pass on a table of kind `kind`.
pub open spec fn entry_after(
    e: EntryView,
    toggle: DefaultToggle,
    reqs: Seq<RequestView>,
    kind: DependencyType,
    caps: Capabilities,
) -> EntryView {
    match e {
        EntryView::Text(v) => table_after(expanded(v), toggle, reqs, kind, caps),
        EntryView::Table(t) => table_after(t, toggle, reqs, kind, caps),
        _ => e,
    }
}

/// The three field names differ.
pub proof fn lemma_field_keys_differ()
    ensures
        version_key() != features_key(),
        version_key() != default_features_key(),
        features_key() != default_features_key(),
{
    reveal_strlit("version");
    reveal_strlit("features");
    reveal_strlit("default-features");
    assert("version"@.len() == 7);
    assert("features"@.len() == 8);
    assert("default-features"@.len() == 16);
}

/// The table form of a declaration that an edit works on.
pub open spec fn table_of(e: EntryView) -> TableView {
    match e {
        EntryView::Text(v) => expanded(v),
        EntryView::Table(t) => t,
        _ => arbitrary(),
    }
}

/// A shorthand declaration `"v"` that gets one feature becomes
/// `{ version = "v", features = [name] }`; removing that feature again gives
/// back the shorthand `"v"`.
pub proof fn shorthand_gains_and_loses_feature(v: Seq<char>, name: Seq<char>, kind: DependencyType, caps: Capabilities)
    requires
        caps.is_known(name),
    ensures
        entry_after(EntryView::Text(v), DefaultToggle::Keep, seq![add_request(kind, name)], kind, caps)
            == EntryView::Table(TableView {
                inline: true,
                keys: seq![version_key(), features_key()],
                version: Some(v),
                default_features: None,
                features: ListView::Strings(seq![name]),
            }),
        entry_after(
            EntryView::Table(TableView {
                inline: true,
                keys: seq![version_key(), features_key()],
                version: Some(v),
                default_features: None,
                features: ListView::Strings(seq![name]),
            }),
            DefaultToggle::Keep,
            seq![remove_request(kind, name)],
            kind,
            caps,
        ) == EntryView::Text(v),
{
    lemma_field_keys_differ();
    let e: Seq<Seq<char>> = Seq::empty();
    lemma_apply_two(e, add_request(kind, name), add_request(kind, name), kind, caps);
    assert(!e.contains(name));
    assert(e.push(name) =~= seq![name]);
    assert(!seq![version_key()].contains(features_key())) by {
        if seq![version_key()].contains(features_key()) {
            let j = choose|j: int| 0 <= j < 1 && seq![version_key()][j] == features_key();
        }
    }
    assert(seq![version_key()].push(features_key()) =~= seq![version_key(), features_key()]);
    assert(seq![version_key(), features_key()] != seq![version_key()]) by {
        assert(seq![version_key(), features_key()].len() == 2);
    }
    let l = seq![name];
    lemma_apply_two(l, remove_request(kind, name), remove_request(kind, name), kind, caps);
    assert(remove_first(l, name) =~= Seq::<Seq<char>>::empty()) by {
        assert(l[0] == name);
    }
    let ks = seq![version_key(), features_key()];
    assert(remove_first(ks, features_key()) =~= seq![version_key()]) by {
        assert(ks[0] != features_key());
        assert(ks.drop_first() =~= seq![features_key()]);
        assert(remove_first(ks.drop_first(), features_key()) =~= Seq::<Seq<char>>::empty()) by {
            assert(ks.drop_first()[0] == features_key());
        }
        assert(seq![ks[0]] + Seq::<Seq<char>>::empty() =~= seq![version_key()]);
    }
}

/// Adding a feature to a shorthand declaration and removing it in the same
/// pass gives back the shorthand.
pub proof fn shorthand_add_then_remove(v: Seq<char>, name: Seq<char>, kind: DependencyType, caps: Capabilities)
    ensures
        entry_after(
            EntryView::Text(v),
            DefaultToggle::Keep,
            seq![add_request(kind, name), remove_request(kind, name)],
            kind,
            caps,
        ) == EntryView::Text(v),
{
    lemma_field_keys_differ();
    let e: Seq<Seq<char>> = Seq::empty();
    add_then_remove_restores(e, kind, name, caps);
    assert(remove_first(seq![version_key()], features_key()) =~= seq![version_key()]) by {
        let ks = seq![version_key()];
        assert(ks[0] != features_key());
        assert(ks.drop_first() =~= Seq::<Seq<char>>::empty());
        assert(remove_first(ks.drop_first(), features_key()) == ks.drop_first());
        assert(seq![ks[0]] + ks.drop_first() =~= ks);
    }
}

/// Disabling the default features and adding a feature that the list lacks,
/// in one pass, do both: the table gets `default-features = false` and the
/// feature at the end of its list.
pub proof fn disable_default_and_add(e: EntryView, name: Seq<char>, kind: DependencyType, caps: Capabilities)
    requires
        e is Text || (e is Table && !(e->Table_0.features is Invalid)),
        caps.is_known(name),
        !listed(table_of(e).features).contains(name),
    ensures
        ({
            let t = table_of(e);
            entry_after(e, DefaultToggle::Disable, seq![add_request(kind, name)], kind, caps)
                == EntryView::Table(TableView {
                    keys: key_set(key_set(t.keys, default_features_key()), features_key()),
                    default_features: Some(false),
                    features: ListView::Strings(listed(t.features).push(name)),
                    ..t
                })
        }),
{
    lemma_field_keys_differ();
    let t = table_of(e);
    let l = listed(t.features);
    lemma_apply_two(l, add_request(kind, name), add_request(kind, name), kind, caps);
    assert(l.push(name).len() > 0);
    let k1 = key_set(t.keys, default_features_key());
    let k2 = key_set(k1, features_key());
    assert(k1.contains(default_features_key())) by {
        if !t.keys.contains(default_features_key()) {
            assert(k1[t.keys.len() as int] == default_features_key());
        }
    }
    assert(k2.contains(default_features_key())) by {
        let j = choose|j: int| 0 <= j < k1.len() && k1[j] == default_features_key();
        assert(k2[j] == default_features_key());
    }
    assert(k2 != seq![version_key()]) by {
        if k2 == seq![version_key()] {
            let j = choose|j: int| 0 <= j < k2.len() && k2[j] == default_features_key();
        }
    }
}

/// What an edit makes of a declaration can be edited again.
pub proof fn lemma_after_editable(e: EntryView, toggle: DefaultToggle, reqs: Seq<RequestView>, kind: DependencyType, caps: Capabilities)
    requires
        editable(e),
    ensures
        editable(entry_after(e, toggle, reqs, kind, caps)),
{
}

/// Adding a known feature to a declaration that already went through the same
/// addition changes nothing.
pub proof fn lemma_add_after_add(e: EntryView, kind: DependencyType, name: Seq<char>, caps: Capabilities)
    requires
        editable(e),
        caps.is_known(name),
    ensures
        entry_after(entry_after(e, DefaultToggle::Keep, seq![add_request(kind, name)], kind, caps), DefaultToggle::Keep, seq![add_request(kind, name)], kind, caps)
            == entry_after(e, DefaultToggle::Keep, seq![add_request(kind, name)], kind, caps),
        e is Text || e is Table ==> entry_after(e, DefaultToggle::Keep, seq![add_request(kind, name)], kind, caps) is Table,
        e is Text || e is Table ==> entry_after(e, DefaultToggle::Keep, seq![add_request(kind, name)], kind, caps)->Table_0.features is Strings,
{
    lemma_field_keys_differ();
    if e is Text || e is Table {
        let t = table_of(e);
        let l = listed(t.features);
        lemma_apply_two(l, add_request(kind, name), add_request(kind, name), kind, caps);
        let l1 = apply_requests(l, seq![add_request(kind, name)], kind, caps);
        assert(l1.contains(name)) by {
            if !l.contains(name) {
                assert(l1[l.len() as int] == name);
            }
        }
        assert(l1.len() > 0);
        let t2 = with_list(t, l1);
        assert(t2.keys.contains(features_key())) by {
            if !t.keys.contains(features_key()) {
                assert(t2.keys[t.keys.len() as int] == features_key());
            }
        }
        assert(t2.keys != seq![version_key()]) by {
            if t2.keys == seq![version_key()] {
                let j = choose|j: int| 0 <= j < t2.keys.len() && t2.keys[j] == features_key();
            }
        }
        assert(entry_after(e, DefaultToggle::Keep, seq![add_request(kind, name)], kind, caps) == EntryView::Table(t2));
        lemma_apply_two(l1, add_request(kind, name), add_request(kind, name), kind, caps);
        assert(with_list(t2, l1) == t2);
    }
}

/// A request for a name the dependency does not offer leaves the feature list
/// of every declaration as it was.
pub proof fn unknown_request_keeps_list(e: EntryView, toggle: DefaultToggle, req: RequestView, kind: DependencyType, caps: Capabilities)
    requires
        e is Text || (e is Table && !(e->Table_0.features is Invalid)),
        !caps.is_known(req.name),
    ensures
        listed(table_of(entry_after(e, toggle, seq![req], kind, caps)).features) == listed(table_of(e).features),
{
    lemma_field_keys_differ();
    let t = table_of(e);
    let l = listed(t.features);
    lemma_apply_two(l, req, req, kind, caps);
    let t1 = toggled(t, toggle);
    if l.len() > 0 {
        let t2 = with_list(t1, l);
        assert(t2.keys.contains(features_key())) by {
            if !t1.keys.contains(features_key()) {
                assert(t2.keys[t1.keys.len() as int] == features_key());
            }
        }
        assert(t2.keys != seq![version_key()]) by {
            if t2.keys == seq![version_key()] {
                let j = choose|j: int| 0 <= j < t2.keys.len() && t2.keys[j] == features_key();
            }
        }
    }
}

/// Adding a known feature that a declaration lacks and then removing it, in
/// two edits, gives what one edit with no feature request gives: the same
/// feature list, in the same order, and the same fields.
pub proof fn add_then_remove_is_no_request(e: EntryView, kind: DependencyType, name: Seq<char>, caps: Capabilities)
    requires
        e is Text || (e is Table && !(e->Table_0.features is Invalid)),
        caps.is_known(name),
        !listed(table_of(e).features).contains(name),
    ensures
        entry_after(
            entry_after(e, DefaultToggle::Keep, seq![add_request(kind, name)], kind, caps),
            DefaultToggle::Keep,
            seq![remove_request(kind, name)],
            kind,
            caps,
        ) == entry_after(e, DefaultToggle::Keep, Seq::<RequestView>::empty(), kind, caps),
        listed(table_of(entry_after(e, DefaultToggle::Keep, Seq::<RequestView>::empty(), kind, caps)).features)
            == listed(table_of(e).features),
{
    lemma_field_keys_differ();
    let t = table_of(e);
    let l = listed(t.features);
    lemma_apply_two(l, add_request(kind, name), add_request(kind, name), kind, caps);
    let l1 = l.push(name);
    let t2 = with_list(t, l1);
    assert(t2.keys.contains(features_key())) by {
        if !t.keys.contains(features_key()) {
            assert(t2.keys[t.keys.len() as int] == features_key());
        }
    }
    assert(t2.keys != seq![version_key()]) by {
        if t2.keys == seq![version_key()] {
            let j = choose|j: int| 0 <= j < t2.keys.len() && t2.keys[j] == features_key();
        }
    }
    assert(entry_after(e, DefaultToggle::Keep, seq![add_request(kind, name)], kind, caps) == EntryView::Table(t2));
    lemma_apply_two(l1, remove_request(kind, name), remove_request(kind, name), kind, caps);
    lemma_remove_pushed(l, name);
    assert(apply_requests(l, Seq::<RequestView>::empty(), kind, caps) == l);
    if l.len() > 0 {
        assert(key_set(t2.keys, features_key()) == t2.keys);
        assert(with_list(t2, l) == with_list(t, l));
        let k = key_set(t.keys, features_key());
        assert(k.contains(features_key())) by {
            if !t.keys.contains(features_key()) {
                assert(k[t.keys.len() as int] == features_key());
            }
        }
        assert(k != seq![version_key()]) by {
            if k == seq![version_key()] {
                let j = choose|j: int| 0 <= j < k.len() && k[j] == features_key();
            }
        }
    } else {
        if t.keys.contains(features_key()) {
            assert(t2.keys == t.keys);
        } else {
            lemma_remove_pushed(t.keys, features_key());
            lemma_remove_first_absent(t.keys, features_key());
        }
        assert(without_field(t2, features_key()) == without_field(t, features_key()));
    }
}

} // verus!
