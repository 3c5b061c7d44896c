//! A node as the shared-document backend stores it: a record of named
//! fields (its kind, its parent, its children, its attributes), and the
//! names under which kinds, list markers and identifiers are written.
use vstd::prelude::*;
use vstd::string::*;
use vstd::utf8::*;

use crate::error::{decimal, ContentError};
use crate::id::{lemma_decimal_canonical, ContentId};
use crate::kind::{
    kind_name, kind_of_spec, ContentKind, List, ListItem, ListMarker, NodeSpec, Paragraph, Span, Table, Row,
    Cell,
};

verus! {

/// Whether two texts hold the same characters.
pub fn same_text(a: &str, b: &str) -> (r: bool)
    ensures
        r == (a@ == b@),
{
    let n = a.unicode_len();
    if n != b.unicode_len() {
        return false;
    }
    let mut i: usize = 0;
    while i < n
        invariant
            n == a@.len(),
            n == b@.len(),
            i <= n,
            forall|j: int| 0 <= j < i ==> a@[j] == b@[j],
        decreases n - i,
    {
        if a.get_char(i) != b.get_char(i) {
            return false;
        }
        i = i + 1;
    }
    assert(a@ =~= b@);
    true
}

/// Name of a list marker, as it is stored.
pub open spec fn marker_name(marker: ListMarker) -> Seq<char> {
    match marker {
        ListMarker::Disc => "Disc"@,
        ListMarker::Circle => "Circle"@,
        ListMarker::Square => "Square"@,
        ListMarker::Decimal => "Decimal"@,
        ListMarker::LowerAlpha => "LowerAlpha"@,
        ListMarker::UpperAlpha => "UpperAlpha"@,
        ListMarker::LowerRoman => "LowerRoman"@,
        ListMarker::UpperRoman => "UpperRoman"@,
    }
}

/// Two kinds never share a name.
pub proof fn lemma_kind_name_injective(a: ContentKind, b: ContentKind)
    ensures
        kind_name(a) == kind_name(b) ==> a == b,
{
    reveal_strlit("Root");
    reveal_strlit("Paragraph");
    reveal_strlit("Plain");
    reveal_strlit("Span");
    reveal_strlit("List");
    reveal_strlit("ListItem");
    reveal_strlit("Table");
    reveal_strlit("Row");
    reveal_strlit("Cell");
    if kind_name(a) == kind_name(b) {
        assert(kind_name(a).len() == kind_name(b).len());
        assert(kind_name(a)[0] == kind_name(b)[0]);
        assert(kind_name(a)[1] == kind_name(b)[1]);
        assert(kind_name(a)[2] == kind_name(b)[2]);
        if kind_name(a).len() > 4 {
            assert(kind_name(a)[4] == kind_name(b)[4]);
        }
    }
}

/// Two list markers never share a name.
pub proof fn lemma_marker_name_injective(a: ListMarker, b: ListMarker)
    ensures
        marker_name(a) == marker_name(b) ==> a == b,
{
    reveal_strlit("Disc");
    reveal_strlit("Circle");
    reveal_strlit("Square");
    reveal_strlit("Decimal");
    reveal_strlit("LowerAlpha");
    reveal_strlit("UpperAlpha");
    reveal_strlit("LowerRoman");
    reveal_strlit("UpperRoman");
    if marker_name(a) == marker_name(b) {
        assert(marker_name(a).len() == marker_name(b).len());
        assert(marker_name(a)[0] == marker_name(b)[0]);
        assert(marker_name(a)[1] == marker_name(b)[1]);
        if marker_name(a).len() > 5 {
            assert(marker_name(a)[5] == marker_name(b)[5]);
        }
    }
}

impl ContentKind {
    /// The kind whose name is `s`, if any.
    pub fn from_name(s: &str) -> (r: Option<ContentKind>)
        ensures
            r matches Some(k) ==> kind_name(k) == s@,
            r is None ==> forall|k: ContentKind| kind_name(k) != s@,
    {
        if same_text(s, "Root") {
            Some(ContentKind::Root)
        } else if same_text(s, "Paragraph") {
            Some(ContentKind::Paragraph)
        } else if same_text(s, "Plain") {
            Some(ContentKind::Plain)
        } else if same_text(s, "Span") {
            Some(ContentKind::Span)
        } else if same_text(s, "List") {
            Some(ContentKind::List)
        } else if same_text(s, "ListItem") {
            Some(ContentKind::ListItem)
        } else if same_text(s, "Table") {
            Some(ContentKind::Table)
        } else if same_text(s, "Row") {
            Some(ContentKind::Row)
        } else if same_text(s, "Cell") {
            Some(ContentKind::Cell)
        } else {
            proof {
                assert forall|k: ContentKind| kind_name(k) != s@ by {
                    match k {
                        ContentKind::Root => {},
                        ContentKind::Paragraph => {},
                        ContentKind::Plain => {},
                        ContentKind::Span => {},
                        ContentKind::List => {},
                        ContentKind::ListItem => {},
                        ContentKind::Table => {},
                        ContentKind::Row => {},
                        ContentKind::Cell => {},
                    }
                }
            }
            None
        }
    }
}

impl ListMarker {
    /// Name of the marker, as it is stored.
    pub fn name(self) -> (s: &'static str)
        ensures
            s@ == marker_name(self),
    {
        match self {
            ListMarker::Disc => "Disc",
            ListMarker::Circle => "Circle",
            ListMarker::Square => "Square",
            ListMarker::Decimal => "Decimal",
            ListMarker::LowerAlpha => "LowerAlpha",
            ListMarker::UpperAlpha => "UpperAlpha",
            ListMarker::LowerRoman => "LowerRoman",
            ListMarker::UpperRoman => "UpperRoman",
        }
    }

    /// The marker whose name is `s`, if any.
    pub fn from_name(s: &str) -> (r: Option<ListMarker>)
        ensures
            r matches Some(m) ==> marker_name(m) == s@,
            r is None ==> forall|m: ListMarker| marker_name(m) != s@,
    {
        if same_text(s, "Disc") {
            Some(ListMarker::Disc)
        } else if same_text(s, "Circle") {
            Some(ListMarker::Circle)
        } else if same_text(s, "Square") {
            Some(ListMarker::Square)
        } else if same_text(s, "Decimal") {
            Some(ListMarker::Decimal)
        } else if same_text(s, "LowerAlpha") {
            Some(ListMarker::LowerAlpha)
        } else if same_text(s, "UpperAlpha") {
            Some(ListMarker::UpperAlpha)
        } else if same_text(s, "LowerRoman") {
            Some(ListMarker::LowerRoman)
        } else if same_text(s, "UpperRoman") {
            Some(ListMarker::UpperRoman)
        } else {
            proof {
                assert forall|m: ListMarker| marker_name(m) != s@ by {
                    match m {
                        ListMarker::Disc => {},
                        ListMarker::Circle => {},
                        ListMarker::Square => {},
                        ListMarker::Decimal => {},
                        ListMarker::LowerAlpha => {},
                        ListMarker::UpperAlpha => {},
                        ListMarker::LowerRoman => {},
                        ListMarker::UpperRoman => {},
                    }
                }
            }
            None
        }
    }
}


/// A value stored under one name of a node's record.
#[derive(Debug)]
pub enum FieldValue {
    /// No value.
    Null,
    Bool(bool),
    /// A plain string.
    Str(String),
    /// A whole number.
    Number(i64),
    /// A shared, editable text holding these characters.
    Text(String),
    /// A shared list: written empty, read without its items.
    List,
    /// Any other kind of stored value.
    Other,
}

/// What a stored value holds.
pub enum FieldModel {
    Null,
    Bool(bool),
    Str(Seq<char>),
    Number(i64),
    Text(Seq<char>),
    List,
    Other,
}

impl View for FieldValue {
    type V = FieldModel;

    open spec fn view(&self) -> FieldModel {
        match self {
            FieldValue::Null => FieldModel::Null,
            FieldValue::Bool(b) => FieldModel::Bool(*b),
            FieldValue::Str(s) => FieldModel::Str(s@),
            FieldValue::Number(n) => FieldModel::Number(*n),
            FieldValue::Text(t) => FieldModel::Text(t@),
            FieldValue::List => FieldModel::List,
            FieldValue::Other => FieldModel::Other,
        }
    }
}

/// The record that entries read from a node describe: names and values.
pub open spec fn record_of(entries: Seq<(String, FieldValue)>) -> Seq<(Seq<char>, FieldModel)> {
    Seq::new(entries.len(), |i: int| (entries[i].0@, entries[i].1@))
}

/// The record that fields to be written describe.
pub open spec fn written_record(fields: Seq<(&'static str, FieldValue)>) -> Seq<(Seq<char>, FieldModel)> {
    Seq::new(fields.len(), |i: int| (fields[i].0@, fields[i].1@))
}

/// The value stored under `key`: the first entry of that name.
pub open spec fn field(record: Seq<(Seq<char>, FieldModel)>, key: Seq<char>) -> Option<FieldModel>
    decreases record.len(),
{
    if record.len() == 0 {
        None
    } else if record[0].0 == key {
        Some(record[0].1)
    } else {
        field(record.drop_first(), key)
    }
}

/// The kind of the given name, if any.
pub open spec fn kind_named(name: Seq<char>) -> Option<ContentKind> {
    if exists|k: ContentKind| kind_name(k) == name {
        Some(choose|k: ContentKind| kind_name(k) == name)
    } else {
        None
    }
}

/// The list marker of the given name, if any.
pub open spec fn marker_named(name: Seq<char>) -> Option<ListMarker> {
    if exists|m: ListMarker| marker_name(m) == name {
        Some(choose|m: ListMarker| marker_name(m) == name)
    } else {
        None
    }
}

/// The kind a record states: the kind named by its `kind` string.
pub open spec fn record_kind(r: Seq<(Seq<char>, FieldModel)>) -> Option<ContentKind> {
    match field(r, "kind"@) {
        Some(FieldModel::Str(n)) => kind_named(n),
        _ => None,
    }
}

/// A flag is set only when `true` is stored under its name.
pub open spec fn stored_flag(r: Seq<(Seq<char>, FieldModel)>, key: Seq<char>) -> bool {
    field(r, key) == Some(FieldModel::Bool(true))
}

/// The marker stored under `key`; the default marker when none is, or
/// when the stored name is unknown.
pub open spec fn stored_marker(r: Seq<(Seq<char>, FieldModel)>, key: Seq<char>) -> ListMarker {
    match field(r, key) {
        Some(FieldModel::Str(n)) => match marker_named(n) {
            Some(m) => m,
            None => ListMarker::Disc,
        },
        _ => ListMarker::Disc,
    }
}

/// A whole number brought into the range of `u32`.
pub open spec fn saturated_u32(n: i64) -> u32 {
    if n < 0 {
        0
    } else if n > u32::MAX {
        u32::MAX
    } else {
        n as u32
    }
}

/// The number stored under `key`, if one is.
pub open spec fn stored_count(r: Seq<(Seq<char>, FieldModel)>, key: Seq<char>) -> Option<u32> {
    match field(r, key) {
        Some(FieldModel::Number(n)) => Some(saturated_u32(n)),
        _ => None,
    }
}

/// The characters of the shared text of a record; none when it has no
/// text.
pub open spec fn stored_text(r: Seq<(Seq<char>, FieldModel)>) -> Seq<char> {
    match field(r, "text"@) {
        Some(FieldModel::Text(t)) => t,
        _ => Seq::empty(),
    }
}

/// `spec` is the node that the record describes: its kind and each of its
/// attributes are read from the record.
pub open spec fn describes(r: Seq<(Seq<char>, FieldModel)>, spec: NodeSpec) -> bool {
    &&& record_kind(r) == Some(kind_of_spec(spec))
    &&& match spec {
        NodeSpec::Plain(t) => t@ == stored_text(r),
        NodeSpec::Span(s) => s == (Span {
            bold: stored_flag(r, "bold"@),
            italic: stored_flag(r, "italic"@),
            underline: stored_flag(r, "underline"@),
            strikeout: stored_flag(r, "strikeout"@),
        }),
        NodeSpec::List(l) => l == (List {
            marker: stored_marker(r, "marker"@),
            start: stored_count(r, "start"@),
        }),
        NodeSpec::ListItem(i) => i == (ListItem { marker: stored_marker(r, "marker"@) }),
        _ => true,
    }
}

/// The attributes of a node, as they are written: its text, its flags,
/// its marker and start, depending on its kind.
pub open spec fn attribute_fields(spec: NodeSpec) -> Seq<(Seq<char>, FieldModel)> {
    match spec {
        NodeSpec::Plain(t) => seq![("text"@, FieldModel::Text(t@))],
        NodeSpec::Span(s) => seq![
            ("bold"@, FieldModel::Bool(s.bold)),
            ("italic"@, FieldModel::Bool(s.italic)),
            ("underline"@, FieldModel::Bool(s.underline)),
            ("strikeout"@, FieldModel::Bool(s.strikeout)),
        ],
        NodeSpec::List(l) => seq![
            ("marker"@, FieldModel::Str(marker_name(l.marker))),
            ("start"@, match l.start {
                Some(n) => FieldModel::Number(n as i64),
                None => FieldModel::Null,
            }),
        ],
        NodeSpec::ListItem(i) => seq![("marker"@, FieldModel::Str(marker_name(i.marker)))],
        _ => Seq::empty(),
    }
}

/// The whole record of a new node: its kind, its parent (written in
/// decimal), an empty list of children, then its attributes.
pub open spec fn node_record(spec: NodeSpec, parent: Option<ContentId>) -> Seq<(Seq<char>, FieldModel)> {
    seq![
        ("kind"@, FieldModel::Str(kind_name(kind_of_spec(spec)))),
        ("parent"@, match parent {
            Some(p) => FieldModel::Str(decimal(p.0 as nat)),
            None => FieldModel::Null,
        }),
        ("children"@, FieldModel::List),
    ] + attribute_fields(spec)
}


/// Looking a name up in two records put end to end finds it in the first
/// one when it is there, in the second one otherwise.
pub proof fn lemma_field_concat(a: Seq<(Seq<char>, FieldModel)>, b: Seq<(Seq<char>, FieldModel)>, key: Seq<char>)
    ensures
        field(a + b, key) == (match field(a, key) {
            Some(v) => Some(v),
            None => field(b, key),
        }),
    decreases a.len(),
{
    if a.len() > 0 {
        assert((a + b)[0] == a[0]);
        assert((a + b).drop_first() =~= a.drop_first() + b);
        lemma_field_concat(a.drop_first(), b, key);
    } else {
        assert(a + b =~= b);
    }
}

/// The name of a kind names that kind.
pub proof fn lemma_kind_named(k: ContentKind)
    ensures
        kind_named(kind_name(k)) == Some(k),
{
    let c = choose|c: ContentKind| kind_name(c) == kind_name(k);
    lemma_kind_name_injective(c, k);
}

/// The name of a list marker names that marker.
pub proof fn lemma_marker_named(m: ListMarker)
    ensures
        marker_named(marker_name(m)) == Some(m),
{
    let c = choose|c: ListMarker| marker_name(c) == marker_name(m);
    lemma_marker_name_injective(c, m);
}

/// No two names of a record's fields are the same text.
proof fn lemma_field_names_distinct()
    ensures
        "kind"@ != "parent"@,
        "kind"@ != "children"@,
        "kind"@ != "text"@,
        "kind"@ != "bold"@,
        "kind"@ != "italic"@,
        "kind"@ != "underline"@,
        "kind"@ != "strikeout"@,
        "kind"@ != "marker"@,
        "kind"@ != "start"@,
        "parent"@ != "text"@,
        "parent"@ != "bold"@,
        "parent"@ != "italic"@,
        "parent"@ != "underline"@,
        "parent"@ != "strikeout"@,
        "parent"@ != "marker"@,
        "parent"@ != "start"@,
        "children"@ != "text"@,
        "children"@ != "bold"@,
        "children"@ != "italic"@,
        "children"@ != "underline"@,
        "children"@ != "strikeout"@,
        "children"@ != "marker"@,
        "children"@ != "start"@,
        "bold"@ != "italic"@,
        "bold"@ != "underline"@,
        "bold"@ != "strikeout"@,
        "italic"@ != "underline"@,
        "italic"@ != "strikeout"@,
        "underline"@ != "strikeout"@,
        "marker"@ != "start"@,
{
    reveal_strlit("kind");
    reveal_strlit("parent");
    reveal_strlit("children");
    reveal_strlit("text");
    reveal_strlit("bold");
    reveal_strlit("italic");
    reveal_strlit("underline");
    reveal_strlit("strikeout");
    reveal_strlit("marker");
    reveal_strlit("start");
    assert("kind"@[0] != "parent"@[0]);
    assert("kind"@[0] != "children"@[0]);
    assert("kind"@[0] != "text"@[0]);
    assert("kind"@[0] != "bold"@[0]);
    assert("kind"@.len() != "italic"@.len());
    assert("kind"@[0] != "underline"@[0]);
    assert("kind"@[0] != "strikeout"@[0]);
    assert("kind"@[0] != "marker"@[0]);
    assert("kind"@[0] != "start"@[0]);
    assert("parent"@[0] != "text"@[0]);
    assert("parent"@[0] != "bold"@[0]);
    assert("parent"@[0] != "italic"@[0]);
    assert("parent"@[0] != "underline"@[0]);
    assert("parent"@[0] != "strikeout"@[0]);
    assert("parent"@[0] != "marker"@[0]);
    assert("parent"@[0] != "start"@[0]);
    assert("children"@[0] != "text"@[0]);
    assert("children"@[0] != "bold"@[0]);
    assert("children"@[0] != "italic"@[0]);
    assert("children"@[0] != "underline"@[0]);
    assert("children"@[0] != "strikeout"@[0]);
    assert("children"@[0] != "marker"@[0]);
    assert("children"@[0] != "start"@[0]);
    assert("bold"@[0] != "italic"@[0]);
    assert("bold"@[0] != "underline"@[0]);
    assert("bold"@[0] != "strikeout"@[0]);
    assert("italic"@[0] != "underline"@[0]);
    assert("italic"@[0] != "strikeout"@[0]);
    assert("underline"@[0] != "strikeout"@[0]);
    assert("marker"@[0] != "start"@[0]);
}

/// The attributes of `spec`, written over a record that already states the
/// kind of `spec`, make a record that describes `spec`: reading a node back
/// gives what was written to it.
pub proof fn lemma_rewritten_record(spec: NodeSpec, r: Seq<(Seq<char>, FieldModel)>)
    requires
        record_kind(r) == Some(kind_of_spec(spec)),
    ensures
        describes(attribute_fields(spec) + r, spec),
{
    let a = attribute_fields(spec);
    lemma_field_names_distinct();
    reveal_with_fuel(field, 5);
    lemma_field_concat(a, r, "kind"@);
    lemma_field_concat(a, r, "text"@);
    lemma_field_concat(a, r, "bold"@);
    lemma_field_concat(a, r, "italic"@);
    lemma_field_concat(a, r, "underline"@);
    lemma_field_concat(a, r, "strikeout"@);
    lemma_field_concat(a, r, "marker"@);
    lemma_field_concat(a, r, "start"@);
    match spec {
        NodeSpec::List(l) => {
            lemma_marker_named(l.marker);
        },
        NodeSpec::ListItem(i) => {
            lemma_marker_named(i.marker);
        },
        _ => {},
    }
}

/// The record written for a new node describes that node, whatever its
/// parent.
pub proof fn lemma_new_node_record(spec: NodeSpec, parent: Option<ContentId>)
    ensures
        describes(node_record(spec, parent), spec),
{
    let h = seq![
        ("kind"@, FieldModel::Str(kind_name(kind_of_spec(spec)))),
        ("parent"@, match parent {
            Some(p) => FieldModel::Str(decimal(p.0 as nat)),
            None => FieldModel::Null,
        }),
        ("children"@, FieldModel::List),
    ];
    let a = attribute_fields(spec);
    lemma_field_names_distinct();
    lemma_kind_named(kind_of_spec(spec));
    reveal_with_fuel(field, 5);
    lemma_field_concat(h, a, "kind"@);
    lemma_field_concat(h, a, "text"@);
    lemma_field_concat(h, a, "bold"@);
    lemma_field_concat(h, a, "italic"@);
    lemma_field_concat(h, a, "underline"@);
    lemma_field_concat(h, a, "strikeout"@);
    lemma_field_concat(h, a, "marker"@);
    lemma_field_concat(h, a, "start"@);
    match spec {
        NodeSpec::List(l) => {
            lemma_marker_named(l.marker);
        },
        NodeSpec::ListItem(i) => {
            lemma_marker_named(i.marker);
        },
        _ => {},
    }
}


/// The value stored under `key` among the entries read from a node.
fn field_of<'a>(entries: &'a Vec<(String, FieldValue)>, key: &str) -> (r: Option<&'a FieldValue>)
    ensures
        match r {
            Some(v) => field(record_of(entries@), key@) == Some(v@),
            None => field(record_of(entries@), key@) is None,
        },
{
    let ghost rec = record_of(entries@);
    let mut i: usize = 0;
    assert(rec.skip(0) =~= rec);
    while i < entries.len()
        invariant
            i <= entries@.len(),
            rec == record_of(entries@),
            field(rec, key@) == field(rec.skip(i as int), key@),
        decreases entries.len() - i,
    {
        let entry = &entries[i];
        proof {
            assert(rec.skip(i as int)[0] == rec[i as int]);
            assert(rec.skip(i as int).drop_first() =~= rec.skip(i as int + 1));
        }
        if same_text(entry.0.as_str(), key) {
            return Some(&entry.1);
        }
        i = i + 1;
    }
    proof {
        assert(rec.skip(i as int).len() == 0);
    }
    None
}

/// A whole number brought into the range of `u32`.
fn saturate_u32(n: i64) -> (r: u32)
    ensures
        r == saturated_u32(n),
{
    if n < 0 {
        0
    } else if n > 4294967295 {
        4294967295
    } else {
        n as u32
    }
}

/// The kind stated by the entries read from a node, if they state one.
pub fn record_kind_of(entries: &Vec<(String, FieldValue)>) -> (r: Option<ContentKind>)
    ensures
        r == record_kind(record_of(entries@)),
{
    match field_of(entries, "kind") {
        Some(FieldValue::Str(name)) => {
            let k = ContentKind::from_name(name.as_str());
            proof {
                if let Some(found) = k {
                    lemma_kind_named(found);
                }
            }
            k
        },
        _ => None,
    }
}

/// Whether `true` is stored under `key`.
fn flag_of(entries: &Vec<(String, FieldValue)>, key: &str) -> (r: bool)
    ensures
        r == stored_flag(record_of(entries@), key@),
{
    match field_of(entries, key) {
        Some(FieldValue::Bool(b)) => *b,
        _ => false,
    }
}

/// The marker stored under `key`, or the default marker.
fn marker_of(entries: &Vec<(String, FieldValue)>, key: &str) -> (r: ListMarker)
    ensures
        r == stored_marker(record_of(entries@), key@),
{
    match field_of(entries, key) {
        Some(FieldValue::Str(name)) => {
            let m = ListMarker::from_name(name.as_str());
            proof {
                if let Some(found) = m {
                    lemma_marker_named(found);
                }
            }
            match m {
                Some(found) => found,
                None => ListMarker::Disc,
            }
        },
        _ => ListMarker::Disc,
    }
}

/// The number stored under `key`, if one is.
fn count_of(entries: &Vec<(String, FieldValue)>, key: &str) -> (r: Option<u32>)
    ensures
        r == stored_count(record_of(entries@), key@),
{
    match field_of(entries, key) {
        Some(FieldValue::Number(n)) => Some(saturate_u32(*n)),
        _ => None,
    }
}

/// The node that the entries read from a node describe; `None` when they
/// state no known kind.
pub fn spec_from_fields(entries: &Vec<(String, FieldValue)>) -> (r: Option<NodeSpec>)
    ensures
        r is None <==> record_kind(record_of(entries@)) is None,
        r matches Some(spec) ==> describes(record_of(entries@), spec),
{
    let kind = match record_kind_of(entries) {
        Some(k) => k,
        None => return None,
    };
    let spec = match kind {
        ContentKind::Root => NodeSpec::Root,
        ContentKind::Paragraph => NodeSpec::Paragraph(Paragraph),
        ContentKind::Plain => NodeSpec::Plain(
            match field_of(entries, "text") {
                Some(FieldValue::Text(t)) => t.clone(),
                _ => String::new(),
            },
        ),
        ContentKind::Span => NodeSpec::Span(
            Span {
                bold: flag_of(entries, "bold"),
                italic: flag_of(entries, "italic"),
                underline: flag_of(entries, "underline"),
                strikeout: flag_of(entries, "strikeout"),
            },
        ),
        ContentKind::List => NodeSpec::List(
            List { marker: marker_of(entries, "marker"), start: count_of(entries, "start") },
        ),
        ContentKind::ListItem => NodeSpec::ListItem(ListItem { marker: marker_of(entries, "marker") }),
        ContentKind::Table => NodeSpec::Table(Table),
        ContentKind::Row => NodeSpec::Row(Row),
        ContentKind::Cell => NodeSpec::Cell(Cell),
    };
    Some(spec)
}

/// The attributes of a node, as they are written: see [`attribute_fields`].
pub fn spec_fields(spec: &NodeSpec) -> (r: Vec<(&'static str, FieldValue)>)
    ensures
        written_record(r@) == attribute_fields(*spec),
{
    let r = match spec {
        NodeSpec::Plain(t) => vec![("text", FieldValue::Text(t.clone()))],
        NodeSpec::Span(s) => vec![
            ("bold", FieldValue::Bool(s.bold)),
            ("italic", FieldValue::Bool(s.italic)),
            ("underline", FieldValue::Bool(s.underline)),
            ("strikeout", FieldValue::Bool(s.strikeout)),
        ],
        NodeSpec::List(l) => vec![
            ("marker", FieldValue::Str(String::from_str(l.marker.name()))),
            ("start", match l.start {
                Some(n) => FieldValue::Number(n as i64),
                None => FieldValue::Null,
            }),
        ],
        NodeSpec::ListItem(i) => vec![("marker", FieldValue::Str(String::from_str(i.marker.name())))],
        _ => Vec::new(),
    };
    proof {
        assert(written_record(r@) =~= attribute_fields(*spec));
    }
    r
}

/// The whole record of a new node: see [`node_record`].
pub fn node_fields(spec: &NodeSpec, parent: Option<ContentId>) -> (r: Vec<(&'static str, FieldValue)>)
    ensures
        written_record(r@) == node_record(*spec, parent),
{
    let mut r = vec![
        ("kind", FieldValue::Str(String::from_str(spec.kind().name()))),
        ("parent", match parent {
            Some(p) => FieldValue::Str(p.to_decimal()),
            None => FieldValue::Null,
        }),
        ("children", FieldValue::List),
    ];
    let mut attributes = spec_fields(spec);
    let ghost head = r@;
    let ghost tail = attributes@;
    r.append(&mut attributes);
    proof {
        assert(r@ == head + tail);
        assert(written_record(r@) =~= written_record(head) + written_record(tail));
        assert(node_record(*spec, parent) =~= written_record(head) + attribute_fields(*spec));
    }
    r
}


/// The identifier written by `s` in decimal, if any.
pub open spec fn decimal_id(s: Seq<char>) -> Option<ContentId> {
    if exists|id: ContentId| decimal(id.0 as nat) == s {
        Some(choose|id: ContentId| decimal(id.0 as nat) == s)
    } else {
        None
    }
}

/// The identifier an item of a list of children holds, if it holds one.
pub open spec fn item_id(item: Option<String>) -> Option<ContentId> {
    match item {
        Some(s) => decimal_id(s@),
        None => None,
    }
}

/// The identifiers that the items of a list of children hold, in order;
/// the items that hold none are skipped.
pub open spec fn listed_ids(items: Seq<Option<String>>) -> Seq<ContentId>
    decreases items.len(),
{
    if items.len() == 0 {
        Seq::empty()
    } else {
        let rest = listed_ids(items.drop_last());
        match item_id(items.last()) {
            Some(id) => rest.push(id),
            None => rest,
        }
    }
}

/// Two identifiers never share a decimal writing.
pub proof fn lemma_decimal_id(id: ContentId)
    ensures
        decimal_id(decimal(id.0 as nat)) == Some(id),
{
    let c = choose|c: ContentId| decimal(c.0 as nat) == decimal(id.0 as nat);
    lemma_decimal_canonical(c.0 as nat);
    lemma_decimal_canonical(id.0 as nat);
}

/// The identifier an item holds, if it holds one.
fn id_of_item(item: &Option<String>) -> (r: Option<ContentId>)
    ensures
        r == item_id(*item),
{
    match item {
        Some(s) => {
            let r = ContentId::from_decimal(s.as_str());
            proof {
                if let Some(id) = r {
                    lemma_decimal_id(id);
                }
            }
            r
        },
        None => None,
    }
}

/// The identifiers that the items of a list of children hold: see
/// [`listed_ids`].
pub fn child_ids(items: &Vec<Option<String>>) -> (r: Vec<ContentId>)
    ensures
        r@ == listed_ids(items@),
{
    let mut r: Vec<ContentId> = Vec::new();
    let mut i: usize = 0;
    while i < items.len()
        invariant
            i <= items@.len(),
            r@ == listed_ids(items@.take(i as int)),
        decreases items.len() - i,
    {
        proof {
            assert(items@.take(i as int + 1).drop_last() =~= items@.take(i as int));
            assert(items@.take(i as int + 1).last() == items@[i as int]);
        }
        match id_of_item(&items[i]) {
            Some(id) => r.push(id),
            None => {},
        }
        i = i + 1;
    }
    proof {
        assert(items@.take(i as int) =~= items@);
    }
    r
}

/// The index of the first item of a list of children that holds `id`.
pub fn child_position(items: &Vec<Option<String>>, id: ContentId) -> (r: Option<usize>)
    ensures
        r matches Some(i) ==> i < items@.len() && item_id(items@[i as int]) == Some(id) && forall|j: int|
            0 <= j < i ==> item_id(#[trigger] items@[j]) != Some(id),
        r is None ==> forall|j: int| 0 <= j < items@.len() ==> item_id(#[trigger] items@[j]) != Some(id),
{
    let mut i: usize = 0;
    while i < items.len()
        invariant
            i <= items@.len(),
            forall|j: int| 0 <= j < i ==> item_id(#[trigger] items@[j]) != Some(id),
        decreases items.len() - i,
    {
        if id_of_item(&items[i]) == Some(id) {
            return Some(i);
        }
        i = i + 1;
    }
    None
}

/// The bytes of `text` that hold the characters removed when `char_count`
/// characters are removed from index `char_index` (fewer when the text ends
/// first), as a start and an end byte; `None` when nothing is removed: the
/// index lies at or past the end, or the count is zero.
pub fn removed_byte_range(text: &str, char_index: usize, char_count: usize) -> (r: Option<(usize, usize)>)
    ensures
        char_index >= text@.len() || char_count == 0 ==> r is None,
        char_index < text@.len() && char_count > 0 ==> {
            let end = if char_index + char_count < text@.len() { char_index + char_count } else { text@.len() as int };
            r == Some(
                (
                    encode_utf8(text@.take(char_index as int)).len() as usize,
                    encode_utf8(text@.take(end)).len() as usize,
                ),
            )
        },
{
    let len = text.unicode_len();
    if char_index >= len || char_count == 0 {
        return None;
    }
    let end = if char_count < len - char_index { char_index + char_count } else { len };
    let start_byte = text.substring_char(0, char_index).len();
    let end_byte = text.substring_char(0, end).len();
    proof {
        assert(text@.take(len as int) =~= text@);
    }
    Some((start_byte, end_byte))
}

/// A node may take a new specification only of its own kind.
pub fn check_same_kind(current: ContentKind, spec: &NodeSpec) -> (r: Result<(), ContentError>)
    ensures
        kind_of_spec(*spec) == current ==> r is Ok,
        kind_of_spec(*spec) != current ==> r == Err::<(), ContentError>(
            ContentError::KindMismatch { current, new: kind_of_spec(*spec) },
        ),
{
    let new = spec.kind();
    if new != current {
        Err(ContentError::KindMismatch { current, new })
    } else {
        Ok(())
    }
}

/// The children that `links` lists for `id`: those of the first entry for
/// `id`, none when there is no entry.
pub open spec fn linked_children(links: Seq<(ContentId, Vec<ContentId>)>, id: ContentId) -> Seq<ContentId>
    decreases links.len(),
{
    if links.len() == 0 {
        Seq::empty()
    } else if links[0].0 == id {
        links[0].1@
    } else {
        linked_children(links.drop_first(), id)
    }
}

/// Each node of `ids` followed by the nodes below it, in pre-order, to at
/// most `levels` levels.
pub open spec fn subtree_list(links: Seq<(ContentId, Vec<ContentId>)>, ids: Seq<ContentId>, levels: nat) -> Seq<ContentId>
    decreases levels, ids.len(),
{
    if ids.len() == 0 || levels == 0 {
        Seq::empty()
    } else {
        seq![ids[0]] + subtree_list(links, linked_children(links, ids[0]), (levels - 1) as nat) + subtree_list(
            links,
            ids.drop_first(),
            levels,
        )
    }
}

/// `root` and the nodes below it, in pre-order, as `links` (each node with
/// its children) describe them. A chain of nodes each below the next cannot
/// be longer than the list without going round, so the bound on levels
/// cuts only such a loop.
pub open spec fn subtree_of(links: Seq<(ContentId, Vec<ContentId>)>, root: ContentId) -> Seq<ContentId> {
    subtree_list(links, seq![root], links.len() + 1)
}

/// The children that `links` lists for `id`: see [`linked_children`].
fn children_listed(links: &Vec<(ContentId, Vec<ContentId>)>, id: ContentId) -> (cs: Vec<ContentId>)
    ensures
        cs@ == linked_children(links@, id),
{
    let mut i: usize = 0;
    assert(links@.skip(0) =~= links@);
    while i < links.len()
        invariant
            i <= links@.len(),
            linked_children(links@, id) == linked_children(links@.skip(i as int), id),
        decreases links.len() - i,
    {
        let entry = &links[i];
        proof {
            assert(links@.skip(i as int)[0] == links@[i as int]);
            assert(links@.skip(i as int).drop_first() =~= links@.skip(i as int + 1));
        }
        if entry.0 == id {
            return entry.1.clone();
        }
        i = i + 1;
    }
    proof {
        assert(links@.skip(i as int).len() == 0);
    }
    Vec::new()
}

/// Appends to `out` the nodes of `ids` from index `i` on, each followed by
/// the nodes below it: see [`subtree_list`].
fn collect_from(
    links: &Vec<(ContentId, Vec<ContentId>)>,
    ids: &Vec<ContentId>,
    i: usize,
    levels: usize,
    out: &mut Vec<ContentId>,
)
    requires
        i <= ids@.len(),
    ensures
        final(out)@ == old(out)@ + subtree_list(links@, ids@.skip(i as int), levels as nat),
    decreases levels, ids@.len() - i,
{
    if i >= ids.len() || levels == 0 {
        assert(out@ =~= out@ + subtree_list(links@, ids@.skip(i as int), levels as nat));
        return;
    }
    let ghost start = out@;
    let id = ids[i];
    out.push(id);
    let children = children_listed(links, id);
    collect_from(links, &children, 0, levels - 1, out);
    collect_from(links, ids, i + 1, levels, out);
    proof {
        let s = ids@.skip(i as int);
        assert(s[0] == id);
        assert(s.drop_first() =~= ids@.skip(i as int + 1));
        assert(children@.skip(0) =~= children@);
        assert(out@ =~= start + subtree_list(links@, s, levels as nat));
    }
}

/// `root` and the nodes below it, in pre-order: see [`subtree_of`].
pub fn subtree_ids(links: &Vec<(ContentId, Vec<ContentId>)>, root: ContentId) -> (r: Vec<ContentId>)
    requires
        links@.len() < usize::MAX,
    ensures
        r@ == subtree_of(links@, root),
{
    let roots = vec![root];
    let mut out: Vec<ContentId> = Vec::new();
    assert(roots@.skip(0) =~= seq![root]);
    collect_from(links, &roots, 0, links.len() + 1, &mut out);
    assert(out@ =~= subtree_of(links@, root));
    out
}

} // verus!
