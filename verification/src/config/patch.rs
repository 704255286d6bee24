//! Overlaying one TOML document on another, keeping comments and unknown keys.
//!
//! A save writes the settings over the file that is already there. Replacing the
//! file would delete whatever this build does not know about, so the layer is
//! merged in, by these rules:
//!
//! - A table that both sides declare holds exactly the keys of the layer: keys
//!   of the layer are written, the other keys are removed.
//! - The root table is the exception: it is added to and updated, never pruned,
//!   so sections that the layer does not mention stay as they are.
//! - A value over a value keeps the comment and the spacing of the value that
//!   was there. So do the comment above the key and the comment above a table's
//!   header.
//! - Everything else (an array of tables, a value over a table, a table over a
//!   value) is replaced whole.

use vstd::prelude::*;

verus! {

/// The editable document of `toml_edit`.
#[verifier::external_type_specification]
#[verifier::external_body]
pub struct ExDocumentMut(toml_edit::DocumentMut);

/// The table of `toml_edit`.
#[verifier::external_type_specification]
#[verifier::external_body]
pub struct ExTable(toml_edit::Table);

/// What stands behind one key of a table in `toml_edit`.
#[verifier::external_type_specification]
#[verifier::external_body]
pub struct ExItem(toml_edit::Item);

/// The value of `toml_edit`: a scalar, an array or an inline table.
#[verifier::external_type_specification]
#[verifier::external_body]
pub struct ExValue(toml_edit::Value);

/// The texts around a value in `toml_edit`.
#[verifier::external_type_specification]
#[verifier::external_body]
pub struct ExDecor(toml_edit::Decor);

/// What a value is, apart from the text around it.
#[verifier::ext_equal]
pub ghost enum Shape {
    /// A string.
    Text(Seq<char>),
    /// An inline table.
    Inline(Map<Seq<char>, Node>),
    /// A number, a boolean, a date or an array, as it is written.
    Plain(Seq<char>),
}

/// What a document holds in one place. The texts before and after a value or a
/// table header are its comments and spacing; they are empty where none is set.
#[verifier::ext_equal]
pub ghost enum Node {
    /// A value.
    Value { shape: Shape, before: Seq<char>, after: Seq<char> },
    /// A table, under its header.
    Table { before: Seq<char>, after: Seq<char>, entries: Map<Seq<char>, Entry> },
    /// An array of tables, as it is written.
    Tables(Seq<char>),
}

/// What stands behind one key of a table, with the comment and spacing in front
/// of the key.
#[verifier::ext_equal]
pub ghost struct Entry {
    pub lead: Seq<char>,
    pub node: Node,
}

/// What a document holds, from its root on.
pub uninterp spec fn document_node(d: toml_edit::DocumentMut) -> Node;

/// What a table holds.
pub uninterp spec fn table_node(t: toml_edit::Table) -> Node;

/// What an item is.
pub uninterp spec fn item_node(i: toml_edit::Item) -> Node;

/// What a value is.
pub uninterp spec fn value_node(v: toml_edit::Value) -> Node;

/// The texts before and after a value, empty where none is set.
pub uninterp spec fn decor_texts(d: toml_edit::Decor) -> (Seq<char>, Seq<char>);

/// What the document that is read out of a text holds: `None` where the text is
/// no TOML document.
pub uninterp spec fn document_of(s: Seq<char>) -> Option<Node>;

/// What `toml_edit` says is wrong with a text that is no TOML document.
pub uninterp spec fn toml_error_of(s: Seq<char>) -> Seq<char>;

/// A document as it is written out.
pub uninterp spec fn document_text(d: toml_edit::DocumentMut) -> Seq<char>;

/// The entries of a table; none for anything else.
pub open spec fn entries_of(n: Node) -> Map<Seq<char>, Entry> {
    match n {
        Node::Table { entries, .. } => entries,
        _ => Map::empty(),
    }
}

/// A table with other entries under the same header.
pub open spec fn with_entries(n: Node, to: Map<Seq<char>, Entry>) -> Node {
    match n {
        Node::Table { before, after, .. } => Node::Table { before, after, entries: to },
        _ => n,
    }
}

/// The texts before and after a value; none for anything else.
pub open spec fn margins_of(n: Node) -> (Seq<char>, Seq<char>) {
    match n {
        Node::Value { before, after, .. } => (before, after),
        _ => (Seq::empty(), Seq::empty()),
    }
}

/// A value between other texts.
pub open spec fn between_texts(n: Node, texts: (Seq<char>, Seq<char>)) -> Node {
    match n {
        Node::Value { shape, .. } => Node::Value { shape, before: texts.0, after: texts.1 },
        _ => n,
    }
}

/// A value with the text around another value.
pub open spec fn with_margins(n: Node, from: Node) -> Node {
    match (n, from) {
        (Node::Value { shape, .. }, Node::Value { before, after, .. }) => Node::Value {
            shape,
            before,
            after,
        },
        _ => n,
    }
}

/// A table as it is made, with nothing in it.
pub open spec fn empty_table() -> Node {
    Node::Table { before: Seq::empty(), after: Seq::empty(), entries: Map::empty() }
}

/// An entry as it is inserted under a fresh key.
pub open spec fn plain_entry(node: Node) -> Entry {
    Entry { lead: Seq::empty(), node }
}

/// The document that a text holds, by `str::parse` into a
/// `toml_edit::DocumentMut`.
///
/// Its result is a function of the text. The root of a parsed document is a
/// table.
#[verifier::external_body]
pub(crate) fn parse_document(s: &str) -> (r: Result<toml_edit::DocumentMut, String>)
    ensures
        match r {
            Ok(d) => document_of(s@) == Some(document_node(d)) && document_node(d) is Table,
            Err(e) => document_of(s@) is None && e@ == toml_error_of(s@),
        },
{
    s.parse::<toml_edit::DocumentMut>().map_err(|e| e.to_string())
}

/// A document as it is written out, by `toml_edit::DocumentMut::to_string`, which
/// panics where the root is no table.
///
/// The text is a function of the document. It is not stated that reading the
/// text gives the same document back: `toml_edit` leaves out an implicit table
/// that has become empty.
#[verifier::external_body]
pub(crate) fn render_document(d: &toml_edit::DocumentMut) -> (r: String)
    requires
        document_node(*d) is Table,
    ensures
        r@ == document_text(*d),
{
    d.to_string()
}

/// The root table, by `toml_edit::DocumentMut::as_table`.
#[verifier::external_body]
fn root<'a>(d: &'a toml_edit::DocumentMut) -> (r: &'a toml_edit::Table)
    requires
        document_node(*d) is Table,
    ensures
        table_node(*r) == document_node(*d),
{
    d.as_table()
}

/// The root table, to be changed, by `toml_edit::DocumentMut::as_table_mut`:
/// what becomes of the table becomes of the document.
#[verifier::external_body]
fn root_mut<'a>(d: &'a mut toml_edit::DocumentMut) -> (r: &'a mut toml_edit::Table)
    requires
        document_node(*old(d)) is Table,
    ensures
        table_node(*r) == document_node(*old(d)),
        document_node(*final(d)) == table_node(*final(r)),
{
    d.as_table_mut()
}

/// The keys of a table, by `toml_edit::Table::iter`: each key of an entry, once.
#[verifier::external_body]
fn table_keys(t: &toml_edit::Table) -> (r: Vec<String>)
    ensures
        forall|i: int|
            0 <= i < r@.len() ==> entries_of(table_node(*t)).contains_key(#[trigger] r@[i]@),
        forall|k: Seq<char>|
            entries_of(table_node(*t)).contains_key(k) ==> exists|i: int|
                0 <= i < r@.len() && #[trigger] r@[i]@ == k,
        forall|i: int, j: int| 0 <= i < j < r@.len() ==> #[trigger] r@[i]@ != #[trigger] r@[j]@,
{
    t.iter().map(|(k, _)| k.to_string()).collect()
}

/// What kind of thing stands behind a key.
#[derive(Debug, Clone, Copy, PartialEq, Eq, Structural)]
pub enum Kind {
    Value,
    Table,
    Tables,
}

/// The kind of a node.
pub open spec fn kind_of(n: Node) -> Kind {
    match n {
        Node::Value { .. } => Kind::Value,
        Node::Table { .. } => Kind::Table,
        Node::Tables(_) => Kind::Tables,
    }
}

/// What kind of thing stands behind `key`, by `toml_edit::Table::get`: `None`
/// where the table has no such key.
#[verifier::external_body]
fn kind_at(t: &toml_edit::Table, key: &str) -> (r: Option<Kind>)
    ensures
        r is Some <==> entries_of(table_node(*t)).contains_key(key@),
        r is Some ==> r == Some(kind_of(entries_of(table_node(*t))[key@].node)),
{
    match t.get(key) {
        Some(toml_edit::Item::Value(_)) => Some(Kind::Value),
        Some(toml_edit::Item::Table(_)) => Some(Kind::Table),
        Some(toml_edit::Item::ArrayOfTables(_)) => Some(Kind::Tables),
        Some(toml_edit::Item::None) | None => None,
    }
}

/// The table behind `key`, by `toml_edit::Table::get` and
/// `toml_edit::Item::as_table`: `None` where no table stands there.
#[verifier::external_body]
fn table_at<'a>(t: &'a toml_edit::Table, key: &str) -> (r: Option<&'a toml_edit::Table>)
    ensures
        match r {
            Some(sub) => entries_of(table_node(*t)).contains_key(key@) && entries_of(
                table_node(*t),
            )[key@].node == table_node(*sub) && table_node(*sub) is Table,
            None => !entries_of(table_node(*t)).contains_key(key@) || !(entries_of(
                table_node(*t),
            )[key@].node is Table),
        },
{
    t.get(key).and_then(|i| i.as_table())
}

/// The table behind `key`, to be changed, by `toml_edit::Table::get_mut` and
/// `toml_edit::Item::as_table_mut`: what becomes of it becomes of the entry,
/// whose key and other neighbours stay. Where no table stands there, nothing
/// changes.
#[verifier::external_body]
fn table_at_mut<'a>(t: &'a mut toml_edit::Table, key: &str) -> (r: Option<
    &'a mut toml_edit::Table,
>)
    ensures
        match r {
            Some(sub) => {
                &&& entries_of(table_node(*old(t))).contains_key(key@)
                &&& entries_of(table_node(*old(t)))[key@].node == table_node(*sub)
                &&& table_node(*sub) is Table
                &&& table_node(*final(t)) == with_entries(
                    table_node(*old(t)),
                    entries_of(table_node(*old(t))).insert(
                        key@,
                        (Entry {
                            lead: entries_of(table_node(*old(t)))[key@].lead,
                            node: table_node(*final(sub)),
                        }),
                    ),
                )
            },
            None => {
                &&& table_node(*final(t)) == table_node(*old(t))
                &&& !entries_of(table_node(*old(t))).contains_key(key@) || !(entries_of(
                    table_node(*old(t)),
                )[key@].node is Table)
            },
        },
{
    t.get_mut(key).and_then(|i| i.as_table_mut())
}

/// Puts a copy of what stands behind `key` in `from` into `t`, by
/// `toml_edit::Table::insert`, which formats the key anew.
#[verifier::external_body]
fn copy_entry(t: &mut toml_edit::Table, from: &toml_edit::Table, key: &str)
    requires
        entries_of(table_node(*from)).contains_key(key@),
    ensures
        table_node(*final(t)) == with_entries(
            table_node(*old(t)),
            entries_of(table_node(*old(t))).insert(
                key@,
                plain_entry(entries_of(table_node(*from))[key@].node),
            ),
        ),
{
    if let Some(item) = from.get(key) {
        t.insert(key, item.clone());
    }
}

/// The value behind `key`, by `toml_edit::Table::get` and
/// `toml_edit::Item::as_value`: `None` where no value stands there.
#[verifier::external_body]
fn value_at<'a>(t: &'a toml_edit::Table, key: &str) -> (r: Option<&'a toml_edit::Value>)
    ensures
        match r {
            Some(v) => entries_of(table_node(*t)).contains_key(key@) && entries_of(
                table_node(*t),
            )[key@].node == value_node(*v) && value_node(*v) is Value,
            None => !entries_of(table_node(*t)).contains_key(key@) || !(entries_of(
                table_node(*t),
            )[key@].node is Value),
        },
{
    t.get(key).and_then(|i| i.as_value())
}

/// The value behind `key`, to be changed, by `toml_edit::Table::get_mut` and
/// `toml_edit::Item::as_value_mut`: what becomes of it becomes of the entry, whose
/// key and neighbours stay. Where no value stands there, nothing changes.
#[verifier::external_body]
fn value_at_mut<'a>(t: &'a mut toml_edit::Table, key: &str) -> (r: Option<
    &'a mut toml_edit::Value,
>)
    ensures
        match r {
            Some(v) => {
                &&& entries_of(table_node(*old(t))).contains_key(key@)
                &&& entries_of(table_node(*old(t)))[key@].node == value_node(*v)
                &&& value_node(*v) is Value
                &&& table_node(*final(t)) == with_entries(
                    table_node(*old(t)),
                    entries_of(table_node(*old(t))).insert(
                        key@,
                        (Entry {
                            lead: entries_of(table_node(*old(t)))[key@].lead,
                            node: value_node(*final(v)),
                        }),
                    ),
                )
            },
            None => {
                &&& table_node(*final(t)) == table_node(*old(t))
                &&& !entries_of(table_node(*old(t))).contains_key(key@) || !(entries_of(
                    table_node(*old(t)),
                )[key@].node is Value)
            },
        },
{
    t.get_mut(key).and_then(|i| i.as_value_mut())
}

/// A copy of a value with the texts around it, by `toml_edit::Value::clone`.
#[verifier::external_body]
fn copy_of(v: &toml_edit::Value) -> (r: toml_edit::Value)
    ensures
        value_node(r) == value_node(*v),
{
    v.clone()
}

/// The texts around a value, by `toml_edit::Value::decor`.
#[verifier::external_body]
fn decor_of(v: &toml_edit::Value) -> (r: toml_edit::Decor)
    ensures
        decor_texts(r) == margins_of(value_node(*v)),
{
    v.decor().clone()
}

/// Puts other texts around a value, by `toml_edit::Value::decor_mut`. The value
/// itself stays.
#[verifier::external_body]
fn set_decor(v: &mut toml_edit::Value, decor: toml_edit::Decor)
    ensures
        value_node(*final(v)) == between_texts(value_node(*old(v)), decor_texts(decor)),
{
    *v.decor_mut() = decor;
}

/// Writes a copy of the value behind `key` in `from` over the value behind the
/// same key in `t`. The texts around the old value, and the key with its own, stay.
fn copy_value(t: &mut toml_edit::Table, from: &toml_edit::Table, key: &str)
    requires
        entries_of(table_node(*old(t))).contains_key(key@),
        entries_of(table_node(*old(t)))[key@].node is Value,
        entries_of(table_node(*from)).contains_key(key@),
        entries_of(table_node(*from))[key@].node is Value,
    ensures
        table_node(*final(t)) == with_entries(
            table_node(*old(t)),
            entries_of(table_node(*old(t))).insert(
                key@,
                (Entry {
                    lead: entries_of(table_node(*old(t)))[key@].lead,
                    node: with_margins(
                        entries_of(table_node(*from))[key@].node,
                        entries_of(table_node(*old(t)))[key@].node,
                    ),
                }),
            ),
        ),
{
    if let Some(new) = value_at(from, key) {
        if let Some(under) = value_at_mut(t, key) {
            let mut fresh = copy_of(new);
            set_decor(&mut fresh, decor_of(under));
            *under = fresh;
        }
    }
}

/// Puts `value` behind `key`, by `toml_edit::Table::insert`, which formats the
/// key anew.
#[verifier::external_body]
fn put_value(t: &mut toml_edit::Table, key: &str, value: toml_edit::Value)
    ensures
        table_node(*final(t)) == with_entries(
            table_node(*old(t)),
            entries_of(table_node(*old(t))).insert(key@, plain_entry(value_node(value))),
        ),
{
    t.insert(key, toml_edit::Item::Value(value));
}

/// Puts an empty table behind `key`, by `toml_edit::Table::insert`, which
/// formats the key anew.
#[verifier::external_body]
fn put_table(t: &mut toml_edit::Table, key: &str)
    ensures
        table_node(*final(t)) == with_entries(
            table_node(*old(t)),
            entries_of(table_node(*old(t))).insert(key@, plain_entry(empty_table())),
        ),
{
    t.insert(key, toml_edit::Item::Table(toml_edit::Table::new()));
}

/// Removes the entry of `key`, by `toml_edit::Table::remove`, and says whether
/// there was one.
#[verifier::external_body]
fn remove_entry(t: &mut toml_edit::Table, key: &str) -> (r: bool)
    ensures
        r == entries_of(table_node(*old(t))).contains_key(key@),
        table_node(*final(t)) == with_entries(
            table_node(*old(t)),
            entries_of(table_node(*old(t))).remove(key@),
        ),
{
    t.remove(key).is_some_and(|i| !i.is_none())
}

/// The root as an item, by `toml_edit::DocumentMut::as_item`.
#[verifier::external_body]
fn root_item<'a>(d: &'a toml_edit::DocumentMut) -> (r: &'a toml_edit::Item)
    ensures
        item_node(*r) == document_node(*d),
{
    d.as_item()
}

/// What stands behind `key` in an item, by `toml_edit::Item::get`, which looks
/// into tables and inline tables.
#[verifier::external_body]
fn item_at<'a>(i: &'a toml_edit::Item, key: &str) -> (r: Option<&'a toml_edit::Item>)
    ensures
        match r {
            Some(inner) => step(item_node(*i), key@) == Some(item_node(*inner)),
            None => step(item_node(*i), key@) is None,
        },
{
    i.get(key)
}

/// The string that an item is, by `toml_edit::Item::as_str`: `None` where it is
/// anything else.
#[verifier::external_body]
fn item_text(i: &toml_edit::Item) -> (r: Option<String>)
    ensures
        crate::text::opt_text(r) == text_in(item_node(*i)),
{
    i.as_str().map(|s| s.to_string())
}

/// What stands behind a key of a node that has keys.
pub open spec fn step(n: Node, key: Seq<char>) -> Option<Node> {
    match n {
        Node::Table { entries, .. } => if entries.contains_key(key) {
            Some(entries[key].node)
        } else {
            None
        },
        Node::Value { shape: Shape::Inline(values), .. } => if values.contains_key(key) {
            Some(values[key])
        } else {
            None
        },
        _ => None,
    }
}

/// The string that a node is.
pub open spec fn text_in(n: Node) -> Option<Seq<char>> {
    match n {
        Node::Value { shape: Shape::Text(s), .. } => Some(s),
        _ => None,
    }
}

/// The texts of the keys along a path.
pub open spec fn keys_of(path: Seq<&str>) -> Seq<Seq<char>> {
    path.map_values(|s: &str| s@)
}

/// Whether one node is written over the other in place: a table over a table, a
/// value over a value.
pub open spec fn alike(a: Node, b: Node) -> bool {
    (a is Table && b is Table) || (a is Value && b is Value)
}

/// `layer` over `base`. Of a table that both declare, the keys of the layer stay;
/// of the root, the keys of the base stay too.
pub open spec fn merged(base: Node, layer: Node, root: bool) -> Node
    decreases layer,
{
    match (base, layer) {
        (Node::Table { before, after, entries }, Node::Table { entries: above, .. }) => Node::Table {
            before,
            after,
            entries: Map::new(
                |k: Seq<char>| above.contains_key(k) || (root && entries.contains_key(k)),
                |k: Seq<char>|
                    if !above.contains_key(k) {
                        entries[k]
                    } else if entries.contains_key(k) && alike(entries[k].node, above[k].node) {
                        Entry {
                            lead: entries[k].lead,
                            node: merged(entries[k].node, above[k].node, false),
                        }
                    } else {
                        plain_entry(above[k].node)
                    },
            ),
        },
        (Node::Value { .. }, Node::Value { .. }) => with_margins(layer, base),
        _ => layer,
    }
}

/// What stands behind a key of the layer once it is written over `under`.
pub open spec fn written(under: Map<Seq<char>, Entry>, above: Map<Seq<char>, Entry>, k: Seq<char>) -> Entry {
    if under.contains_key(k) && alike(under[k].node, above[k].node) {
        Entry { lead: under[k].lead, node: merged(under[k].node, above[k].node, false) }
    } else {
        plain_entry(above[k].node)
    }
}

proof fn lemma_merged_entry(base: Node, layer: Node, root: bool, k: Seq<char>)
    requires
        base is Table,
        layer is Table,
    ensures
        entries_of(merged(base, layer, root)).contains_key(k) <==> entries_of(layer).contains_key(k)
            || (root && entries_of(base).contains_key(k)),
        entries_of(layer).contains_key(k) ==> entries_of(merged(base, layer, root))[k] == written(
            entries_of(base),
            entries_of(layer),
            k,
        ),
        !entries_of(layer).contains_key(k) && root && entries_of(base).contains_key(k)
            ==> entries_of(merged(base, layer, root))[k] == entries_of(base)[k],
{
}

/// Drops the keys of `base` that `layer` does not have.
fn prune(base: &mut toml_edit::Table, layer: &toml_edit::Table)
    requires
        table_node(*old(base)) is Table,
    ensures
        table_node(*final(base)) == with_entries(
            table_node(*old(base)),
            entries_of(table_node(*old(base))).restrict(
                entries_of(table_node(*layer)).dom(),
            ),
        ),
{
    let ghost was = table_node(*base);
    let ghost above = entries_of(table_node(*layer));
    let keys = table_keys(base);
    let mut i: usize = 0;
    while i < keys.len()
        invariant
            i <= keys@.len(),
            was is Table,
            above == entries_of(table_node(*layer)),
            table_node(*base) == with_entries(was, entries_of(table_node(*base))),
            forall|k: Seq<char>|
                #[trigger] entries_of(was).contains_key(k) ==> exists|j: int|
                    0 <= j < keys@.len() && #[trigger] keys@[j]@ == k,
            forall|k: Seq<char>| #[trigger]
                entries_of(table_node(*base)).contains_key(k) <==> entries_of(was).contains_key(k)
                    && (above.contains_key(k) || forall|j: int|
                    0 <= j < i ==> #[trigger] keys@[j]@ != k),
            forall|k: Seq<char>| #[trigger]
                entries_of(table_node(*base)).contains_key(k) ==> entries_of(table_node(*base))[k]
                    == entries_of(was)[k],
        decreases keys@.len() - i,
    {
        let ghost mid = entries_of(table_node(*base));
        let key = keys[i].as_str();
        if kind_at(layer, key).is_none() {
            remove_entry(base, key);
            assert(entries_of(table_node(*base)) == mid.remove(key@));
        }
        i += 1;
    }
    assert(entries_of(table_node(*base)) =~= entries_of(was).restrict(above.dom()));
}

/// Whether `k` is one of the first `n` keys.
spec fn among(keys: Seq<String>, n: int, k: Seq<char>) -> bool {
    exists|j: int| 0 <= j < n && #[trigger] keys[j]@ == k
}

/// Writes `layer` over `base`: see [`merge_document`].
fn merge_table(base: &mut toml_edit::Table, layer: &toml_edit::Table, is_root: bool)
    requires
        table_node(*old(base)) is Table,
        table_node(*layer) is Table,
    ensures
        table_node(*final(base)) == merged(table_node(*old(base)), table_node(*layer), is_root),
    decreases table_node(*layer),
{
    let ghost was = table_node(*base);
    let ghost above = entries_of(table_node(*layer));
    if !is_root {
        prune(base, layer);
    }
    let ghost start = entries_of(table_node(*base));
    let ghost goal = merged(was, table_node(*layer), is_root);
    let keys = table_keys(layer);
    let mut i: usize = 0;
    while i < keys.len()
        invariant
            i <= keys@.len(),
            was is Table,
            table_node(*layer) is Table,
            above == entries_of(table_node(*layer)),
            goal == merged(was, table_node(*layer), is_root),
            table_node(*base) == with_entries(was, entries_of(table_node(*base))),
            forall|k: Seq<char>| start.contains_key(k) ==> #[trigger] start[k] == entries_of(was)[k],
            forall|k: Seq<char>| #[trigger]
                start.contains_key(k) <==> entries_of(was).contains_key(k) && (is_root
                    || above.contains_key(k)),
            forall|j: int| 0 <= j < keys@.len() ==> above.contains_key(#[trigger] keys@[j]@),
            forall|k: Seq<char>|
                above.contains_key(k) ==> exists|j: int|
                    0 <= j < keys@.len() && #[trigger] keys@[j]@ == k,
            forall|a: int, b: int|
                0 <= a < b < keys@.len() ==> #[trigger] keys@[a]@ != #[trigger] keys@[b]@,
            forall|j: int|
                0 <= j < i ==> entries_of(table_node(*base)).contains_key(#[trigger] keys@[j]@)
                    && entries_of(table_node(*base))[keys@[j]@] == entries_of(goal)[keys@[j]@],
            forall|k: Seq<char>|
                !among(keys@, i as int, k) ==> (#[trigger] entries_of(table_node(*base)).contains_key(
                    k,
                ) <==> start.contains_key(k)) && (start.contains_key(k) ==> entries_of(
                    table_node(*base),
                )[k] == start[k]),
        decreases keys@.len() - i,
    {
        let ghost mid = entries_of(table_node(*base));
        let key = keys[i].as_str();
        let over = kind_at(layer, key);
        let under = kind_at(base, key);
        assert(!among(keys@, i as int, key@));
        assert(mid.contains_key(key@) <==> start.contains_key(key@));
        if let (Some(Kind::Table), Some(Kind::Table)) = (over, under) {
            if let Some(sub) = table_at(layer, key) {
                proof {
                    assert(decreases_to!(table_node(*layer) => above[key@].node));
                }
                if let Some(target) = table_at_mut(base, key) {
                    merge_table(target, sub, false);
                }
            }
        } else if let (Some(Kind::Value), Some(Kind::Value)) = (over, under) {
            copy_value(base, layer, key);
        } else {
            copy_entry(base, layer, key);
        }
        proof {
            let now = entries_of(table_node(*base));
            lemma_merged_entry(was, table_node(*layer), is_root, key@);
            assert(now == mid.insert(key@, written(entries_of(was), above, key@)));
            assert(now == mid.insert(key@, entries_of(goal)[key@]));
            assert forall|k: Seq<char>| !among(keys@, i + 1, k) implies (#[trigger] now.contains_key(
                k,
            ) <==> start.contains_key(k)) && (start.contains_key(k) ==> now[k] == start[k]) by {
                assert(keys@[i as int]@ != k);
                assert(mid.contains_key(k) <==> start.contains_key(k));
            }
        }
        i += 1;
    }
    assert(entries_of(table_node(*base)) =~= entries_of(goal));
}

/// Overlays `layer` on `base`, keeping comments and unknown keys.
pub fn merge_document(base: &mut toml_edit::DocumentMut, layer: &toml_edit::DocumentMut)
    requires
        document_node(*old(base)) is Table,
        document_node(*layer) is Table,
    ensures
        document_node(*final(base)) == merged(document_node(*old(base)), document_node(*layer), true),
{
    merge_table(root_mut(base), root(layer), true);
}

/// `layer` over `base`, both and the result as TOML texts. The result is how
/// `toml_edit` writes a document that holds the overlay; the error is what is
/// wrong with the base, or else with the layer.
pub fn overlay(base: &str, layer: &str) -> (r: Result<String, String>)
    ensures
        match r {
            Ok(text) => exists|d: toml_edit::DocumentMut|
                #![trigger document_text(d)]
                text@ == document_text(d) && document_of(base@) is Some && document_of(layer@) is Some
                    && document_node(d) == merged(document_of(base@)->0, document_of(layer@)->0, true),
            Err(e) => if document_of(base@) is None {
                e@ == toml_error_of(base@)
            } else {
                document_of(layer@) is None && e@ == toml_error_of(layer@)
            },
        },
{
    let mut doc = match parse_document(base) {
        Ok(d) => d,
        Err(e) => {
            return Err(e);
        },
    };
    let patch = match parse_document(layer) {
        Ok(d) => d,
        Err(e) => {
            return Err(e);
        },
    };
    merge_document(&mut doc, &patch);
    Ok(render_document(&doc))
}

/// What stands at the end of a path, through tables and inline tables.
pub open spec fn found(n: Node, path: Seq<Seq<char>>) -> Option<Node>
    decreases path.len(),
{
    if path.len() == 0 {
        Some(n)
    } else {
        match step(n, path[0]) {
            Some(inner) => found(inner, path.drop_first()),
            None => None,
        }
    }
}

/// The string at the end of a path.
pub open spec fn text_at(n: Node, path: Seq<Seq<char>>) -> Option<Seq<char>> {
    match found(n, path) {
        Some(inner) => text_in(inner),
        None => None,
    }
}

/// The string at the end of `path`: `None` where nothing, or no string, stands
/// there.
pub fn get_str(doc: &toml_edit::DocumentMut, path: &[&str]) -> (r: Option<String>)
    ensures
        crate::text::opt_text(r) == text_at(document_node(*doc), keys_of(path@)),
{
    let mut item = root_item(doc);
    let n: usize = path.len();
    let mut i: usize = 0;
    assert(keys_of(path@).skip(0) =~= keys_of(path@));
    while i < n
        invariant
            n == path@.len(),
            i <= n,
            found(document_node(*doc), keys_of(path@)) == found(
                item_node(*item),
                keys_of(path@).skip(i as int),
            ),
        decreases n - i,
    {
        proof {
            assert(keys_of(path@).skip(i as int)[0] == path@[i as int]@);
            assert(keys_of(path@).skip(i as int).drop_first() =~= keys_of(path@).skip(i as int + 1));
        }
        match item_at(item, path[i]) {
            Some(inner) => {
                item = inner;
            },
            None => {
                return None;
            },
        }
        i += 1;
    }
    item_text(item)
}

/// A table with `value` at the end of a path. What stands on the way and is no
/// table gives way to one.
pub open spec fn put_at(n: Node, path: Seq<Seq<char>>, value: Node) -> Node
    decreases path.len(),
{
    if path.len() == 0 {
        n
    } else if path.len() == 1 {
        with_entries(n, entries_of(n).insert(path[0], plain_entry(value)))
    } else {
        let on_the_way = if entries_of(n).contains_key(path[0]) && entries_of(n)[path[0]].node is Table {
            entries_of(n)[path[0]]
        } else {
            plain_entry(empty_table())
        };
        with_entries(
            n,
            entries_of(n).insert(
                path[0],
                (Entry {
                    lead: on_the_way.lead,
                    node: put_at(on_the_way.node, path.drop_first(), value),
                }),
            ),
        )
    }
}

fn put_below(table: &mut toml_edit::Table, path: &[&str], from: usize, value: toml_edit::Value)
    requires
        from < path@.len(),
        table_node(*old(table)) is Table,
    ensures
        table_node(*final(table)) == put_at(
            table_node(*old(table)),
            keys_of(path@).skip(from as int),
            value_node(value),
        ),
    decreases path@.len() - from,
{
    let ghost was = table_node(*table);
    let ghost keys = keys_of(path@).skip(from as int);
    let key = path[from];
    assert(keys[0] == key@);
    if from + 1 == path.len() {
        put_value(table, key, value);
        return;
    }
    proof {
        assert(keys.drop_first() =~= keys_of(path@).skip(from as int + 1));
    }
    let under = kind_at(table, key);
    if let Some(Kind::Table) = under {
    } else {
        put_table(table, key);
    }
    let ghost mid = table_node(*table);
    if let Some(target) = table_at_mut(table, key) {
        put_below(target, path, from + 1, value);
    }
    assert(table_node(*table) == put_at(was, keys, value_node(value))) by {
        assert(entries_of(mid).insert(key@, entries_of(table_node(*table))[key@]) =~= entries_of(
            was,
        ).insert(key@, entries_of(table_node(*table))[key@]));
    }
}

/// Puts `value` at the end of `path`, with the tables on the way. An empty path
/// changes nothing.
pub fn set_value(doc: &mut toml_edit::DocumentMut, path: &[&str], value: toml_edit::Value)
    requires
        document_node(*old(doc)) is Table,
    ensures
        document_node(*final(doc)) == put_at(
            document_node(*old(doc)),
            keys_of(path@),
            value_node(value),
        ),
{
    if path.len() > 0 {
        assert(keys_of(path@).skip(0) =~= keys_of(path@));
        put_below(root_mut(doc), path, 0, value);
    }
}

/// What stands at the end of a path through tables alone.
pub open spec fn held(n: Node, path: Seq<Seq<char>>) -> Option<Node>
    decreases path.len(),
{
    if path.len() == 0 {
        Some(n)
    } else if entries_of(n).contains_key(path[0]) {
        held(entries_of(n)[path[0]].node, path.drop_first())
    } else {
        None
    }
}

/// A table without the entry at the end of a path through tables.
pub open spec fn cut_at(n: Node, path: Seq<Seq<char>>) -> Node
    decreases path.len(),
{
    if path.len() == 0 {
        n
    } else if path.len() == 1 {
        with_entries(n, entries_of(n).remove(path[0]))
    } else if entries_of(n).contains_key(path[0]) && entries_of(n)[path[0]].node is Table {
        with_entries(
            n,
            entries_of(n).insert(
                path[0],
                (Entry {
                    lead: entries_of(n)[path[0]].lead,
                    node: cut_at(entries_of(n)[path[0]].node, path.drop_first()),
                }),
            ),
        )
    } else {
        n
    }
}

fn cut_below(table: &mut toml_edit::Table, path: &[&str], from: usize) -> (r: bool)
    requires
        from < path@.len(),
        table_node(*old(table)) is Table,
    ensures
        table_node(*final(table)) == cut_at(
            table_node(*old(table)),
            keys_of(path@).skip(from as int),
        ),
        r == (held(table_node(*old(table)), keys_of(path@).skip(from as int)) is Some),
    decreases path@.len() - from,
{
    let ghost was = table_node(*table);
    let ghost keys = keys_of(path@).skip(from as int);
    let key = path[from];
    assert(keys[0] == key@);
    proof {
        assert(keys.drop_first() =~= keys_of(path@).skip(from as int + 1));
        reveal_with_fuel(held, 2);
    }
    if from + 1 == path.len() {
        return remove_entry(table, key);
    }
    match table_at_mut(table, key) {
        Some(target) => cut_below(target, path, from + 1),
        None => false,
    }
}

/// Removes what stands at the end of `path`, and says whether there was
/// anything. An empty path, or one that leaves the tables, removes nothing.
pub fn remove_path(doc: &mut toml_edit::DocumentMut, path: &[&str]) -> (r: bool)
    requires
        document_node(*old(doc)) is Table,
    ensures
        document_node(*final(doc)) == cut_at(document_node(*old(doc)), keys_of(path@)),
        r == (path@.len() > 0 && held(document_node(*old(doc)), keys_of(path@)) is Some),
{
    if path.len() == 0 {
        return false;
    }
    assert(keys_of(path@).skip(0) =~= keys_of(path@));
    cut_below(root_mut(doc), path, 0)
}

/// What the root holds and the layer does not mention stays as it is, comments
/// included.
pub proof fn law_unknown_sections_stay(base: Node, layer: Node, k: Seq<char>)
    requires
        base is Table,
        layer is Table,
        entries_of(base).contains_key(k),
        !entries_of(layer).contains_key(k),
    ensures
        entries_of(merged(base, layer, true)).contains_key(k),
        entries_of(merged(base, layer, true))[k] == entries_of(base)[k],
{
}

/// A table below the root that the layer declares has exactly the keys of the
/// layer in the overlay: an absent key is removed.
pub proof fn law_declared_tables_are_exact(base: Node, layer: Node, path: Seq<Seq<char>>)
    requires
        base is Table,
        path.len() > 0,
        held(layer, path) is Some,
        held(layer, path)->0 is Table,
    ensures
        held(merged(base, layer, true), path) is Some,
        held(merged(base, layer, true), path)->0 is Table,
        entries_of(held(merged(base, layer, true), path)->0).dom() == entries_of(
            held(layer, path)->0,
        ).dom(),
{
    lemma_path_through(base, layer, true, path);
}

proof fn lemma_path_through(base: Node, layer: Node, root: bool, path: Seq<Seq<char>>)
    requires
        base is Table,
        held(layer, path) is Some,
        root ==> path.len() > 0,
    ensures
        held(merged(base, layer, root), path) is Some,
        kind_of(held(merged(base, layer, root), path)->0) == kind_of(held(layer, path)->0),
        held(layer, path)->0 is Table ==> entries_of(held(merged(base, layer, root), path)->0).dom()
            == entries_of(held(layer, path)->0).dom(),
        held(layer, path)->0 matches Node::Value { shape, .. } ==> (held(
            merged(base, layer, root),
            path,
        )->0 matches Node::Value { shape: s, .. } && s == shape),
        held(layer, path)->0 is Tables ==> held(merged(base, layer, root), path) == held(layer, path),
    decreases path.len(),
{
    let over = merged(base, layer, root);
    if path.len() == 0 {
        if layer is Table {
            assert(entries_of(over).dom() =~= entries_of(layer).dom());
        }
    } else {
        let k = path[0];
        lemma_merged_entry(base, layer, root, k);
        let above = entries_of(layer)[k].node;
        let rest = path.drop_first();
        if entries_of(base).contains_key(k) && alike(entries_of(base)[k].node, above) {
            if above is Table {
                lemma_path_through(entries_of(base)[k].node, above, false, rest);
            } else if rest.len() > 0 {
                assert(held(above, rest) is None);
            }
        } else {
            assert(entries_of(over)[k].node == above);
        }
    }
}

/// Every value that the layer holds is the value of the overlay.
pub proof fn law_layer_wins(base: Node, layer: Node, path: Seq<Seq<char>>)
    requires
        base is Table,
        path.len() > 0,
        held(layer, path) is Some,
        held(layer, path)->0 is Value,
    ensures
        held(merged(base, layer, true), path) is Some,
        held(merged(base, layer, true), path)->0 matches Node::Value { shape: s, .. } && s == held(
            layer,
            path,
        )->0->shape,
{
    lemma_path_through(base, layer, true, path);
}

/// The entry at the end of a path through tables.
pub open spec fn entry_at(n: Node, path: Seq<Seq<char>>) -> Option<Entry>
    decreases path.len(),
{
    if path.len() == 0 || !entries_of(n).contains_key(path[0]) {
        None
    } else if path.len() == 1 {
        Some(entries_of(n)[path[0]])
    } else {
        entry_at(entries_of(n)[path[0]].node, path.drop_first())
    }
}

/// Where a value is written over a value, or a table over a table, the comments
/// stay: before the key, and around the value or the table header.
pub proof fn law_comments_stay(base: Node, layer: Node, root: bool, path: Seq<Seq<char>>)
    requires
        base is Table,
        layer is Table,
        entry_at(base, path) is Some,
        entry_at(layer, path) is Some,
        alike(entry_at(base, path)->0.node, entry_at(layer, path)->0.node),
    ensures
        entry_at(merged(base, layer, root), path) is Some,
        entry_at(merged(base, layer, root), path)->0.lead == entry_at(base, path)->0.lead,
        match (entry_at(merged(base, layer, root), path)->0.node, entry_at(base, path)->0.node) {
            (
                Node::Value { before: a, after: b, .. },
                Node::Value { before: c, after: d, .. },
            ) => a == c && b == d,
            (
                Node::Table { before: a, after: b, .. },
                Node::Table { before: c, after: d, .. },
            ) => a == c && b == d,
            _ => false,
        },
    decreases path.len(),
{
    let k = path[0];
    lemma_merged_entry(base, layer, root, k);
    if path.len() > 1 {
        law_comments_stay(
            entries_of(base)[k].node,
            entries_of(layer)[k].node,
            false,
            path.drop_first(),
        );
    }
}

/// What a node holds apart from comments and spacing: its keys and values.
#[verifier::ext_equal]
pub ghost enum Content {
    Value(Shape),
    Table(Map<Seq<char>, Content>),
    Tables(Seq<char>),
}

/// The keys and values of a node.
pub open spec fn content(n: Node) -> Content
    decreases n,
{
    match n {
        Node::Value { shape, .. } => Content::Value(shape),
        Node::Table { entries, .. } => Content::Table(
            Map::new(
                |k: Seq<char>| entries.contains_key(k),
                |k: Seq<char>|
                    if entries.contains_key(k) {
                        content(entries[k].node)
                    } else {
                        Content::Tables(Seq::empty())
                    },
            ),
        ),
        Node::Tables(s) => Content::Tables(s),
    }
}

/// Below the root, an overlay holds the keys and values of the layer.
proof fn lemma_content_of_layer(base: Node, layer: Node)
    ensures
        content(merged(base, layer, false)) == content(layer),
    decreases layer,
{
    if base is Table && layer is Table {
        let above = entries_of(layer);
        let over = entries_of(merged(base, layer, false));
        assert forall|k: Seq<char>| above.contains_key(k) implies content(
            (#[trigger] over[k]).node,
        ) == content(above[k].node) by {
            lemma_merged_entry(base, layer, false, k);
            assert(decreases_to!(layer => above[k].node));
            if entries_of(base).contains_key(k) {
                lemma_content_of_layer(entries_of(base)[k].node, above[k].node);
            }
        }
        assert forall|k: Seq<char>| over.contains_key(k) <==> above.contains_key(k) by {
            lemma_merged_entry(base, layer, false, k);
        }
        assert(content(merged(base, layer, false))->Table_0 =~= content(layer)->Table_0);
    }
}

/// Overlaying the same layer once more keeps every key and value, whatever
/// comments and spacing it carries. The first overlay has the keys of the base
/// and of the layer, each of the layer with the layer's content.
pub proof fn law_second_overlay_keeps_keys_and_values(base: Node, layer: Node)
    requires
        base is Table,
        layer is Table,
    ensures
        content(merged(merged(base, layer, true), layer, true)) == content(
            merged(base, layer, true),
        ),
        entries_of(merged(base, layer, true)).dom() == entries_of(base).dom().union(
            entries_of(layer).dom(),
        ),
        forall|k: Seq<char>|
            entries_of(layer).contains_key(k) ==> content(
                (#[trigger] entries_of(merged(base, layer, true))[k]).node,
            ) == content(entries_of(layer)[k].node),
        forall|k: Seq<char>|
            entries_of(base).contains_key(k) && !entries_of(layer).contains_key(k) ==> (
            #[trigger] entries_of(merged(base, layer, true))[k]) == entries_of(base)[k],
{
    let above = entries_of(layer);
    let first = merged(base, layer, true);
    let second = merged(first, layer, true);
    let once = entries_of(first);
    let twice = entries_of(second);
    assert forall|k: Seq<char>| above.contains_key(k) implies content((#[trigger] once[k]).node)
        == content(above[k].node) by {
        lemma_merged_entry(base, layer, true, k);
        if entries_of(base).contains_key(k) {
            lemma_content_of_layer(entries_of(base)[k].node, above[k].node);
        }
    }
    assert forall|k: Seq<char>| once.contains_key(k) implies content((#[trigger] twice[k]).node)
        == content(once[k].node) by {
        lemma_merged_entry(base, layer, true, k);
        lemma_merged_entry(first, layer, true, k);
        if above.contains_key(k) {
            lemma_content_of_layer(once[k].node, above[k].node);
            assert(content(once[k].node) == content(above[k].node));
        }
    }
    assert forall|k: Seq<char>|
        (once.contains_key(k) <==> above.contains_key(k) || entries_of(base).contains_key(k)) && (
        twice.contains_key(k) <==> once.contains_key(k)) by {
        lemma_merged_entry(base, layer, true, k);
        lemma_merged_entry(first, layer, true, k);
    }
    assert(content(second)->Table_0 =~= content(first)->Table_0);
    assert(once.dom() =~= entries_of(base).dom().union(above.dom()));
}

/// Whether no array of tables inside a node has a text in front of its key. Such
/// a text does not outlast an overlay.
pub open spec fn bare(n: Node) -> bool
    decreases n,
{
    match n {
        Node::Table { entries, .. } => forall|k: Seq<char>| #[trigger]
            entries.contains_key(k) ==> bare(entries[k].node) && (entries[k].node is Tables
                ==> entries[k].lead == Seq::<char>::empty()),
        _ => true,
    }
}

/// Whether what an overlay copies whole out of the layer is bare.
pub open spec fn copies_bare(base: Node, layer: Node) -> bool
    decreases layer,
{
    match (base, layer) {
        (Node::Table { entries, .. }, Node::Table { entries: above, .. }) => forall|
            k: Seq<char>,
        | #[trigger]
            above.contains_key(k) ==> if entries.contains_key(k) && alike(
                entries[k].node,
                above[k].node,
            ) {
                copies_bare(entries[k].node, above[k].node)
            } else {
                bare(above[k].node)
            },
        (Node::Value { .. }, Node::Value { .. }) => true,
        _ => bare(layer),
    }
}

proof fn lemma_over_itself(n: Node, root: bool)
    requires
        bare(n),
    ensures
        merged(n, n, root) == n,
    decreases n,
{
    if n is Table {
        let own = entries_of(n);
        assert forall|k: Seq<char>| own.contains_key(k) implies #[trigger] entries_of(
            merged(n, n, root),
        )[k] == own[k] by {
            lemma_merged_entry(n, n, root, k);
            assert(decreases_to!(n => own[k].node));
            lemma_over_itself(own[k].node, false);
        }
        assert(entries_of(merged(n, n, root)) =~= own);
    }
}

/// Overlaying a layer that is already in place changes nothing.
pub proof fn law_overlay_twice_is_once(base: Node, layer: Node, root: bool)
    requires
        copies_bare(base, layer),
    ensures
        merged(merged(base, layer, root), layer, root) == merged(base, layer, root),
    decreases layer,
{
    let once = merged(base, layer, root);
    let twice = merged(once, layer, root);
    if base is Table && layer is Table {
        let above = entries_of(layer);
        assert forall|k: Seq<char>| above.contains_key(k) implies #[trigger] entries_of(twice)[k]
            == entries_of(once)[k] by {
            lemma_merged_entry(base, layer, root, k);
            lemma_merged_entry(once, layer, root, k);
            assert(decreases_to!(layer => above[k].node));
            if entries_of(base).contains_key(k) && alike(entries_of(base)[k].node, above[k].node) {
                law_overlay_twice_is_once(entries_of(base)[k].node, above[k].node, false);
            } else {
                lemma_over_itself(above[k].node, false);
            }
        }
        assert(entries_of(twice) =~= entries_of(once));
    } else if layer is Table {
        lemma_over_itself(layer, root);
    }
}

/// What is put at the end of a path is found there.
pub proof fn law_put_is_found(n: Node, path: Seq<Seq<char>>, value: Node)
    requires
        n is Table,
        path.len() > 0,
    ensures
        held(put_at(n, path, value), path) == Some(value),
        found(put_at(n, path, value), path) == Some(value),
    decreases path.len(),
{
    let rest = path.drop_first();
    if path.len() == 1 {
        assert(rest.len() == 0);
        assert(held(value, rest) == Some(value));
        assert(found(value, rest) == Some(value));
    } else {
        let on_the_way = if entries_of(n).contains_key(path[0]) && entries_of(n)[path[0]].node is Table {
            entries_of(n)[path[0]].node
        } else {
            empty_table()
        };
        law_put_is_found(on_the_way, rest, value);
    }
}

/// What is removed is gone.
pub proof fn law_removed_is_gone(n: Node, path: Seq<Seq<char>>)
    requires
        path.len() > 0,
    ensures
        held(cut_at(n, path), path) is None,
    decreases path.len(),
{
    if path.len() > 1 && entries_of(n).contains_key(path[0]) {
        if entries_of(n)[path[0]].node is Table {
            law_removed_is_gone(entries_of(n)[path[0]].node, path.drop_first());
        } else {
            assert(held(entries_of(n)[path[0]].node, path.drop_first()) is None);
        }
    }
}

/// Removing an entry leaves every other entry alone: whatever is neither below
/// nor above the path that is removed.
pub proof fn law_removal_touches_one_entry(n: Node, path: Seq<Seq<char>>, other: Seq<Seq<char>>)
    requires
        !path.is_prefix_of(other),
        !other.is_prefix_of(path),
    ensures
        held(cut_at(n, path), other) == held(n, other),
    decreases path.len(),
{
    let k = path[0];
    let rest = path.drop_first();
    let beside = other.drop_first();
    if n is Table && other[0] == k && path.len() > 1 && other.len() > 0 {
        assert(!rest.is_prefix_of(beside)) by {
            if rest.is_prefix_of(beside) {
                assert(path =~= other.subrange(0, path.len() as int)) by {
                    assert forall|i: int| 0 <= i < path.len() implies path[i] == other[i] by {
                        if i > 0 {
                            assert(rest[i - 1] == beside.subrange(0, rest.len() as int)[i - 1]);
                        }
                    }
                }
            }
        }
        assert(!beside.is_prefix_of(rest)) by {
            if beside.is_prefix_of(rest) {
                assert(other =~= path.subrange(0, other.len() as int)) by {
                    assert forall|i: int| 0 <= i < other.len() implies path[i] == other[i] by {
                        if i > 0 {
                            assert(beside[i - 1] == rest.subrange(0, beside.len() as int)[i - 1]);
                        }
                    }
                }
            }
        }
        if entries_of(n).contains_key(k) && entries_of(n)[k].node is Table {
            law_removal_touches_one_entry(entries_of(n)[k].node, rest, beside);
        }
    } else if n is Table && other[0] == k && path.len() == 1 && other.len() > 0 {
        assert(path =~= other.subrange(0, 1));
    }
}

/// Removing an entry brings nothing forth.
pub proof fn law_removal_adds_nothing(n: Node, path: Seq<Seq<char>>, other: Seq<Seq<char>>)
    requires
        held(n, other) is None,
    ensures
        held(cut_at(n, path), other) is None,
    decreases path.len(),
{
    if path.len() > 1 && n is Table && entries_of(n).contains_key(path[0]) && entries_of(
        n,
    )[path[0]].node is Table && other[0] == path[0] {
        law_removal_adds_nothing(
            entries_of(n)[path[0]].node,
            path.drop_first(),
            other.drop_first(),
        );
    }
}

/// Putting a value somewhere touches nothing beside it.
pub proof fn law_put_touches_one_entry(
    n: Node,
    path: Seq<Seq<char>>,
    value: Node,
    other: Seq<Seq<char>>,
)
    requires
        !path.is_prefix_of(other),
        !other.is_prefix_of(path),
    ensures
        held(put_at(n, path, value), other) == held(n, other),
    decreases path.len(),
{
    let k = path[0];
    let rest = path.drop_first();
    let beside = other.drop_first();
    if n is Table && other[0] == k && path.len() > 1 && other.len() > 0 {
        assert(!rest.is_prefix_of(beside)) by {
            if rest.is_prefix_of(beside) {
                assert(path =~= other.subrange(0, path.len() as int)) by {
                    assert forall|i: int| 0 <= i < path.len() implies path[i] == other[i] by {
                        if i > 0 {
                            assert(rest[i - 1] == beside.subrange(0, rest.len() as int)[i - 1]);
                        }
                    }
                }
            }
        }
        assert(!beside.is_prefix_of(rest)) by {
            if beside.is_prefix_of(rest) {
                assert(other =~= path.subrange(0, other.len() as int)) by {
                    assert forall|i: int| 0 <= i < other.len() implies path[i] == other[i] by {
                        if i > 0 {
                            assert(beside[i - 1] == rest.subrange(0, beside.len() as int)[i - 1]);
                        }
                    }
                }
            }
        }
        let there = entries_of(n).contains_key(k);
        if there && entries_of(n)[k].node is Table {
            law_put_touches_one_entry(entries_of(n)[k].node, rest, value, beside);
        } else {
            assert(beside.len() > 0) by {
                if beside.len() == 0 {
                    assert(beside =~= rest.subrange(0, 0));
                }
            }
            law_put_touches_one_entry(empty_table(), rest, value, beside);
            assert(held(empty_table(), beside) is None);
            if there {
                assert(entries_of(entries_of(n)[k].node) =~= Map::<Seq<char>, Entry>::empty());
                assert(held(entries_of(n)[k].node, beside) is None);
            }
            assert(held(n, other) is None);
        }
    } else if n is Table && other[0] == k && path.len() == 1 && other.len() > 0 {
        assert(path =~= other.subrange(0, 1));
    }
}

} // verus!
