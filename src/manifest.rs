//! The manifest document, edited in place through toml_edit. A place in the
//! document is named by its path of keys from the root.
use vstd::prelude::*;
use crate::entry::{
    default_features_key, expanded, features_key, is_field_key, version_key, with_default_off, with_list, without_field, EntryView, ListView, TableView,
};
use crate::request::strs;
use toml_edit::{Array, Document, InlineTable, Item, Value};

verus! {

#[verifier::external_type_specification]
#[verifier::external_body]
pub struct ExDocument(Document);

/// What the document holds at each path of keys.
pub uninterp spec fn nodes_of(d: Document) -> Map<Seq<Seq<char>>, EntryView>;

/// What the map of a document holds at `p`.
pub open spec fn node_in(m: Map<Seq<Seq<char>>, EntryView>, p: Seq<Seq<char>>) -> EntryView {
    if m.contains_key(p) {
        m[p]
    } else {
        EntryView::Absent
    }
}

/// The table at `p`, where there is one.
pub open spec fn table_in(m: Map<Seq<Seq<char>>, EntryView>, p: Seq<Seq<char>>) -> TableView {
    match node_in(m, p) {
        EntryView::Table(t) => t,
        _ => arbitrary(),
    }
}

/// Whether `p` is `q` or leads to it.
pub open spec fn is_prefix(p: Seq<Seq<char>>, q: Seq<Seq<char>>) -> bool {
    p.len() <= q.len() && q.subrange(0, p.len() as int) == p
}

/// Whether two nodes have the same outline: both absent, both tables with the
/// same keys, or both some other value.
pub open spec fn same_outline(a: EntryView, b: EntryView) -> bool {
    &&& (a is Absent) == (b is Absent)
    &&& (a is Table) == (b is Table)
    &&& (a is Table ==> a->Table_0.keys == b->Table_0.keys)
}

/// Whether `q` is the table that holds `p`, and `p` has the name of a field.
pub open spec fn holder_of_field(p: Seq<Seq<char>>, q: Seq<Seq<char>>) -> bool {
    p.len() > 0 && q == p.drop_last() && is_field_key(p.last())
}

/// Whether `q` lies strictly below `p`.
pub open spec fn strictly_below(p: Seq<Seq<char>>, q: Seq<Seq<char>>) -> bool {
    is_prefix(p, q) && q.len() > p.len()
}

/// Whether an edit of field `k` of the table at `p` left every node alone but
/// the table itself and what lies at or below the field.
pub open spec fn kept_apart(before: Map<Seq<Seq<char>>, EntryView>, after: Map<Seq<Seq<char>>, EntryView>, p: Seq<Seq<char>>, k: Seq<char>) -> bool {
    forall|q: Seq<Seq<char>>| q != p && !is_prefix(p.push(k), q)
        ==> #[trigger] node_in(after, q) == node_in(before, q)
}

/// Whether a replacement of the value at `p` left every node alone but that
/// value, what lies below it, and the table holding it where `p` is named
/// like a field; that table keeps its outline.
pub open spec fn replaced_at(before: Map<Seq<Seq<char>>, EntryView>, after: Map<Seq<Seq<char>>, EntryView>, p: Seq<Seq<char>>) -> bool {
    &&& forall|q: Seq<Seq<char>>| !is_prefix(p, q) && !holder_of_field(p, q)
        ==> #[trigger] node_in(after, q) == node_in(before, q)
    &&& p.len() > 0 ==> same_outline(node_in(after, p.drop_last()), node_in(before, p.drop_last()))
}

/// Whether nothing stands at or below `p`.
pub open spec fn empty_below(m: Map<Seq<Seq<char>>, EntryView>, p: Seq<Seq<char>>) -> bool {
    forall|q: Seq<Seq<char>>| is_prefix(p, q) ==> #[trigger] node_in(m, q) is Absent
}

/// The shape of a node.
#[derive(Clone, Copy, Debug, PartialEq, Eq, Structural)]
pub enum Shape {
    Absent,
    Table,
    Other,
}

/// A node's shape, with the text of a string.
#[derive(Clone, Debug)]
pub enum EntryShape {
    Absent,
    Text(String),
    Table,
    Other,
}

/// The `features` field of a table.
#[derive(Clone, Debug)]
pub enum FeatureField {
    Missing,
    Strings(Vec<String>),
    Invalid,
}

/// Relies on toml_edit's Item::get, a lookup by key in a table or an inline
/// table: reports whether a table stands at `path`.
#[verifier::external_body]
pub(crate) fn node_shape(doc: &Document, path: &Vec<String>) -> (r: Shape)
    ensures
        match node_in(nodes_of(*doc), strs(path@)) {
            EntryView::Absent => r == Shape::Absent,
            EntryView::Table(_) => r == Shape::Table,
            _ => r == Shape::Other,
        },
{
    match path.iter().try_fold(doc.as_item(), |i, k| i.get(k.as_str())) {
        None => Shape::Absent,
        Some(Item::Table(_)) | Some(Item::Value(Value::InlineTable(_))) => Shape::Table,
        Some(_) => Shape::Other,
    }
}

/// Relies on toml_edit's Item::get and Item::as_str: reports what stands at
/// `path`, with the text of a string; a lookup by key below a string finds nothing.
#[verifier::external_body]
pub(crate) fn entry_shape(doc: &Document, path: &Vec<String>) -> (r: EntryShape)
    ensures
        match node_in(nodes_of(*doc), strs(path@)) {
            EntryView::Absent => r is Absent,
            EntryView::Text(s) => r is Text && r->Text_0@ == s,
            EntryView::Table(_) => r is Table,
            EntryView::Other => r is Other,
        },
        r is Text ==> forall|q: Seq<Seq<char>>| strictly_below(strs(path@), q)
            ==> #[trigger] node_in(nodes_of(*doc), q) is Absent,
{
    match path.iter().try_fold(doc.as_item(), |i, k| i.get(k.as_str())) {
        None => EntryShape::Absent,
        Some(Item::Value(Value::String(s))) => EntryShape::Text(s.value().clone()),
        Some(Item::Table(_)) | Some(Item::Value(Value::InlineTable(_))) => EntryShape::Table,
        Some(_) => EntryShape::Other,
    }
}

/// Relies on toml_edit's Table::into_iter and InlineTable's TableLike::iter,
/// which both give every key of the table in order, a key held without a
/// value too: the keys of the table at `path`. A table holds each key once,
/// and a lookup by any other key finds nothing.
#[verifier::external_body]
pub(crate) fn table_keys(doc: &Document, path: &Vec<String>) -> (r: Vec<String>)
    requires
        node_in(nodes_of(*doc), strs(path@)) is Table,
    ensures
        strs(r@) == table_in(nodes_of(*doc), strs(path@)).keys,
        strs(r@).no_duplicates(),
        forall|q: Seq<Seq<char>>| strictly_below(strs(path@), q) && !strs(r@).contains(q[path@.len() as int])
            ==> #[trigger] node_in(nodes_of(*doc), q) is Absent,
{
    match path.iter().try_fold(doc.as_item(), |i, k| i.get(k.as_str())) {
        Some(Item::Table(t)) => t.clone().into_iter().map(|(k, _)| k.to_string()).collect(),
        Some(i) => i.as_table_like().map(|t| t.iter().map(|(k, _)| k.to_string()).collect()).unwrap_or_default(),
        None => Vec::new(),
    }
}

/// Relies on toml_edit's Item::get and Item::as_str: the `version` field
/// (named by `key`) of the table at `path`, where it is a string.
#[verifier::external_body]
pub(crate) fn table_version(doc: &Document, path: &Vec<String>, key: &str) -> (r: Option<String>)
    requires
        node_in(nodes_of(*doc), strs(path@)) is Table,
        key@ == version_key(),
    ensures
        match (r, table_in(nodes_of(*doc), strs(path@)).version) {
            (Some(a), Some(b)) => a@ == b,
            (None, None) => true,
            _ => false,
        },
{
    let item = path.iter().try_fold(doc.as_item(), |i, k| i.get(k.as_str()));
    item.and_then(|i| i.get(key)).and_then(|v| v.as_str()).map(String::from)
}

/// Relies on toml_edit's Item::get, Item::as_array and Value::as_str: the
/// `features` field (named by `key`) of the table at `path`.
#[verifier::external_body]
pub(crate) fn table_features(doc: &Document, path: &Vec<String>, key: &str) -> (r: FeatureField)
    requires
        node_in(nodes_of(*doc), strs(path@)) is Table,
        key@ == features_key(),
    ensures
        match table_in(nodes_of(*doc), strs(path@)).features {
            ListView::Missing => r is Missing,
            ListView::Strings(s) => r is Strings && strs(r->Strings_0@) == s,
            ListView::Invalid => r is Invalid,
        },
{
    let item = path.iter().try_fold(doc.as_item(), |i, k| i.get(k.as_str()));
    match item.and_then(|i| i.get(key)) {
        None => FeatureField::Missing,
        Some(f) => match f.as_array().and_then(|a| a.iter().map(|v| v.as_str().map(String::from)).collect()) {
            Some(list) => FeatureField::Strings(list),
            None => FeatureField::Invalid,
        },
    }
}

/// Relies on toml_edit's InlineTable::insert and on assigning an Item in place:
/// the string at `path` becomes the inline table `{ <key> = <string> }`, with
/// `key` the name of the version field,
/// which holds nothing else.
#[verifier::external_body]
pub(crate) fn expand_shorthand(doc: &mut Document, path: &Vec<String>, key: &str, version: &str)
    requires
        node_in(nodes_of(*old(doc)), strs(path@)) == EntryView::Text(version@),
        key@ == version_key(),
    ensures
        node_in(nodes_of(*final(doc)), strs(path@)) == EntryView::Table(expanded(version@)),
        node_in(nodes_of(*final(doc)), strs(path@).push(version_key())) == EntryView::Text(version@),
        forall|q: Seq<Seq<char>>| strictly_below(strs(path@), q) && q != strs(path@).push(version_key())
            ==> #[trigger] node_in(nodes_of(*final(doc)), q) is Absent,
        replaced_at(nodes_of(*old(doc)), nodes_of(*final(doc)), strs(path@)),
{
    let mut table = InlineTable::new();
    table.insert(key, version.into());
    table.decor_mut().set_prefix(" ");
    table.decor_mut().set_suffix("");
    let item = path.iter().try_fold(doc.as_item_mut(), |i, k| i.as_table_like_mut()?.get_mut(k));
    if let Some(item) = item {
        *item = toml_edit::value(table);
    }
}

/// Relies on toml_edit's TableLike::insert, which replaces the value of a key
/// the table holds (with or without a value) in its place and puts a new key
/// last, and on InlineTable::fmt, which only respaces: sets
/// the `default-features` field (named by `key`) to `false` in the table at
/// `path`. A lookup by key below a
/// boolean finds nothing.
#[verifier::external_body]
pub(crate) fn set_default_features_off(doc: &mut Document, path: &Vec<String>, key: &str)
    requires
        node_in(nodes_of(*old(doc)), strs(path@)) is Table,
        key@ == default_features_key(),
    ensures
        node_in(nodes_of(*final(doc)), strs(path@)) == EntryView::Table(
            with_default_off(table_in(nodes_of(*old(doc)), strs(path@))),
        ),
        node_in(nodes_of(*final(doc)), strs(path@).push(default_features_key())) is Other,
        forall|q: Seq<Seq<char>>| strictly_below(strs(path@).push(default_features_key()), q)
            ==> #[trigger] node_in(nodes_of(*final(doc)), q) is Absent,
        kept_apart(nodes_of(*old(doc)), nodes_of(*final(doc)), strs(path@), default_features_key()),
{
    let item = path.iter().try_fold(doc.as_item_mut(), |i, k| i.as_table_like_mut()?.get_mut(k));
    if let Some(item) = item {
        if let Some(t) = item.as_table_like_mut() {
            t.insert(key, toml_edit::value(false));
        }
        if let Some(t) = item.as_inline_table_mut() {
            t.fmt();
        }
    }
}

/// Relies on toml_edit's Array::clear, Extend and Array::fmt, which refill an
/// array in place (its key, its place and the comments around it stay), on
/// TableLike::insert, which puts a new key last where the table holds no
/// array under it (or replaces the value in its place), and on
/// InlineTable::fmt, which only respaces: sets the `features` field (named by
/// `key`) of the table at `path` to the array of `list`. A lookup by key below
/// an array finds nothing.
#[verifier::external_body]
pub(crate) fn set_features(doc: &mut Document, path: &Vec<String>, key: &str, list: &Vec<String>)
    requires
        node_in(nodes_of(*old(doc)), strs(path@)) is Table,
        key@ == features_key(),
    ensures
        node_in(nodes_of(*final(doc)), strs(path@)) == EntryView::Table(
            with_list(table_in(nodes_of(*old(doc)), strs(path@)), strs(list@)),
        ),
        node_in(nodes_of(*final(doc)), strs(path@).push(features_key())) is Other,
        forall|q: Seq<Seq<char>>| strictly_below(strs(path@).push(features_key()), q)
            ==> #[trigger] node_in(nodes_of(*final(doc)), q) is Absent,
        kept_apart(nodes_of(*old(doc)), nodes_of(*final(doc)), strs(path@), features_key()),
{
    let item = path.iter().try_fold(doc.as_item_mut(), |i, k| i.as_table_like_mut()?.get_mut(k));
    if let Some(item) = item {
        if let Some(t) = item.as_table_like_mut() {
            if let Some(a) = t.get_mut(key).and_then(|f| f.as_array_mut()) {
                a.clear();
                a.extend(list.iter());
                a.fmt();
            } else {
                t.insert(key, toml_edit::value(list.iter().collect::<Array>()));
            }
        }
        if let Some(t) = item.as_inline_table_mut() {
            t.fmt();
        }
    }
}

/// Relies on toml_edit's TableLike::remove, which takes a key out (with or
/// without a value) and keeps the order of the others, and on
/// InlineTable::fmt, which only respaces: removes field `key` from the table at
/// `path`.
#[verifier::external_body]
pub(crate) fn remove_field(doc: &mut Document, path: &Vec<String>, key: &str)
    requires
        node_in(nodes_of(*old(doc)), strs(path@)) is Table,
    ensures
        node_in(nodes_of(*final(doc)), strs(path@)) == EntryView::Table(
            without_field(table_in(nodes_of(*old(doc)), strs(path@)), key@),
        ),
        empty_below(nodes_of(*final(doc)), strs(path@).push(key@)),
        kept_apart(nodes_of(*old(doc)), nodes_of(*final(doc)), strs(path@), key@),
{
    let item = path.iter().try_fold(doc.as_item_mut(), |i, k| i.as_table_like_mut()?.get_mut(k));
    if let Some(item) = item {
        if let Some(t) = item.as_table_like_mut() {
            t.remove(key);
        }
        if let Some(t) = item.as_inline_table_mut() {
            t.fmt();
        }
    }
}

/// Relies on toml_edit's TableLike::get and on assigning an Item in place: the
/// table at `path` is replaced by the string of its `version` field (named by
/// `key`), below
/// which a lookup by key finds nothing.
#[verifier::external_body]
pub(crate) fn collapse_to_version(doc: &mut Document, path: &Vec<String>, key: &str)
    requires
        node_in(nodes_of(*old(doc)), strs(path@)) is Table,
        key@ == version_key(),
        table_in(nodes_of(*old(doc)), strs(path@)).version is Some,
    ensures
        node_in(nodes_of(*final(doc)), strs(path@)) == EntryView::Text(
            table_in(nodes_of(*old(doc)), strs(path@)).version->Some_0,
        ),
        forall|q: Seq<Seq<char>>| strictly_below(strs(path@), q)
            ==> #[trigger] node_in(nodes_of(*final(doc)), q) is Absent,
        replaced_at(nodes_of(*old(doc)), nodes_of(*final(doc)), strs(path@)),
{
    let item = path.iter().try_fold(doc.as_item_mut(), |i, k| i.as_table_like_mut()?.get_mut(k));
    if let Some(item) = item {
        if let Some(v) = item.as_table_like().and_then(|t| t.get(key)).cloned() {
            *item = v;
        }
    }
}

} // verus!
