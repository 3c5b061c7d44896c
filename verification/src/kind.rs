use vstd::prelude::*;
use vstd::string::*;

verus! {

/// Kind of a content node: the discriminant of [`NodeSpec`].
#[derive(Clone, Copy, Debug, PartialEq, Eq, Structural, Hash)]
pub enum ContentKind {
    Root,
    Paragraph,
    Plain,
    Span,
    List,
    ListItem,
    Table,
    Row,
    Cell,
}

/// Full specification of a content node, independent of the backend that
/// stores it.
#[derive(Debug, Hash)]
pub enum NodeSpec {
    Root,
    Paragraph(Paragraph),
    Plain(String),
    Span(Span),
    List(List),
    ListItem(ListItem),
    Table(Table),
    Row(Row),
    Cell(Cell),
}

#[derive(Clone, Copy, Debug, Hash, PartialEq, Eq, Structural)]
pub struct Paragraph;

#[derive(Clone, Copy, Debug, Hash, PartialEq, Eq, Structural)]
pub struct Span {
    pub bold: bool,
    pub italic: bool,
    pub underline: bool,
    pub strikeout: bool,
}

#[derive(Clone, Copy, Debug, Hash, PartialEq, Eq, Structural)]
pub struct List {
    pub marker: ListMarker,
    pub start: Option<u32>,
}

#[derive(Clone, Copy, Debug, Hash, PartialEq, Eq, Structural)]
pub struct ListItem {
    pub marker: ListMarker,
}

#[derive(Clone, Copy, Debug, Hash, PartialEq, Eq, Structural)]
pub struct Table;

#[derive(Clone, Copy, Debug, Hash, PartialEq, Eq, Structural)]
pub struct Row;

#[derive(Clone, Copy, Debug, Hash, PartialEq, Eq, Structural)]
pub struct Cell;

/// Bullet or numbering style of a list.
#[derive(Clone, Copy, Debug, Hash, PartialEq, Eq, Structural)]
pub enum ListMarker {
    Disc,
    Circle,
    Square,
    Decimal,
    LowerAlpha,
    UpperAlpha,
    LowerRoman,
    UpperRoman,
}

impl Clone for NodeSpec {
    fn clone(&self) -> (r: Self)
        ensures
            r == *self,
    {
        match self {
            NodeSpec::Root => NodeSpec::Root,
            NodeSpec::Paragraph(p) => NodeSpec::Paragraph(*p),
            NodeSpec::Plain(text) => NodeSpec::Plain(text.clone()),
            NodeSpec::Span(s) => NodeSpec::Span(*s),
            NodeSpec::List(l) => NodeSpec::List(*l),
            NodeSpec::ListItem(i) => NodeSpec::ListItem(*i),
            NodeSpec::Table(t) => NodeSpec::Table(*t),
            NodeSpec::Row(r) => NodeSpec::Row(*r),
            NodeSpec::Cell(c) => NodeSpec::Cell(*c),
        }
    }
}

impl Default for ListMarker {
    fn default() -> (r: Self)
        ensures
            r == ListMarker::Disc,
    {
        ListMarker::Disc
    }
}

impl Default for Paragraph {
    fn default() -> (r: Self) {
        Paragraph
    }
}

impl Default for Table {
    fn default() -> (r: Self) {
        Table
    }
}

impl Default for Row {
    fn default() -> (r: Self) {
        Row
    }
}

impl Default for Cell {
    fn default() -> (r: Self) {
        Cell
    }
}

impl Default for Span {
    fn default() -> (r: Self)
        ensures
            r == (Span { bold: false, italic: false, underline: false, strikeout: false }),
    {
        Span { bold: false, italic: false, underline: false, strikeout: false }
    }
}

impl Default for List {
    fn default() -> (r: Self)
        ensures
            r == (List { marker: ListMarker::Disc, start: None }),
    {
        List { marker: ListMarker::Disc, start: None }
    }
}

impl Default for ListItem {
    fn default() -> (r: Self)
        ensures
            r == (ListItem { marker: ListMarker::Disc }),
    {
        ListItem { marker: ListMarker::Disc }
    }
}

/// The kind of a node specification.
pub open spec fn kind_of_spec(spec: NodeSpec) -> ContentKind {
    match spec {
        NodeSpec::Root => ContentKind::Root,
        NodeSpec::Paragraph(_) => ContentKind::Paragraph,
        NodeSpec::Plain(_) => ContentKind::Plain,
        NodeSpec::Span(_) => ContentKind::Span,
        NodeSpec::List(_) => ContentKind::List,
        NodeSpec::ListItem(_) => ContentKind::ListItem,
        NodeSpec::Table(_) => ContentKind::Table,
        NodeSpec::Row(_) => ContentKind::Row,
        NodeSpec::Cell(_) => ContentKind::Cell,
    }
}

/// Text carried by a node: the characters of a `Plain` node, empty for
/// every other node.
pub open spec fn text_of_spec(spec: NodeSpec) -> Seq<char> {
    match spec {
        NodeSpec::Plain(text) => text@,
        _ => Seq::empty(),
    }
}

/// Length of the text carried by a node, as a machine integer.
pub open spec fn text_len(spec: NodeSpec) -> usize {
    text_of_spec(spec).len() as usize
}

/// `node` is the node that [`ContentKind::new_default_node`] builds for
/// `kind`: that kind, with default attributes and, for `Plain`, no text.
pub open spec fn is_default_node(kind: ContentKind, node: NodeSpec) -> bool {
    match node {
        NodeSpec::Root => kind == ContentKind::Root,
        NodeSpec::Paragraph(_) => kind == ContentKind::Paragraph,
        NodeSpec::Plain(text) => kind == ContentKind::Plain && text@.len() == 0,
        NodeSpec::Span(span) => kind == ContentKind::Span && span == (Span {
            bold: false,
            italic: false,
            underline: false,
            strikeout: false,
        }),
        NodeSpec::List(list) => kind == ContentKind::List && list == (List {
            marker: ListMarker::Disc,
            start: None,
        }),
        NodeSpec::ListItem(item) => kind == ContentKind::ListItem && item == (ListItem {
            marker: ListMarker::Disc,
        }),
        NodeSpec::Table(_) => kind == ContentKind::Table,
        NodeSpec::Row(_) => kind == ContentKind::Row,
        NodeSpec::Cell(_) => kind == ContentKind::Cell,
    }
}

impl NodeSpec {
    pub fn kind(&self) -> (k: ContentKind)
        ensures
            k == kind_of_spec(*self),
    {
        match self {
            NodeSpec::Root => ContentKind::Root,
            NodeSpec::Paragraph(_) => ContentKind::Paragraph,
            NodeSpec::Plain(_) => ContentKind::Plain,
            NodeSpec::Span(_) => ContentKind::Span,
            NodeSpec::List(_) => ContentKind::List,
            NodeSpec::ListItem(_) => ContentKind::ListItem,
            NodeSpec::Table(_) => ContentKind::Table,
            NodeSpec::Row(_) => ContentKind::Row,
            NodeSpec::Cell(_) => ContentKind::Cell,
        }
    }

    /// Length in characters (not bytes); always zero for a non-terminal node.
    pub fn len(&self) -> (n: usize)
        ensures
            n == text_of_spec(*self).len(),
    {
        match self {
            NodeSpec::Plain(text) => text.as_str().unicode_len(),
            _ => 0,
        }
    }

    pub fn is_empty(&self) -> (b: bool)
        ensures
            b == (text_of_spec(*self).len() == 0),
    {
        self.len() == 0
    }

    /// The text of a `Plain` node, the empty string for any other node.
    pub fn as_str(&self) -> (s: &str)
        ensures
            s@ == text_of_spec(*self),
    {
        match self {
            NodeSpec::Plain(text) => text.as_str(),
            _ => {
                proof {
                    reveal_strlit("");
                }
                ""
            },
        }
    }
}

impl From<&str> for NodeSpec {
    /// A `Plain` node holding a copy of the text.
    fn from(value: &str) -> (r: Self)
        ensures
            kind_of_spec(r) == ContentKind::Plain,
            text_of_spec(r) == value@,
    {
        NodeSpec::Plain(String::from_str(value))
    }
}

impl vstd::std_specs::convert::FromSpecImpl<&str> for NodeSpec {
    /// A copy of a string slice is a new `String` that only its text
    /// describes, not a value that a spec expression can name: `from`
    /// states that text itself.
    open spec fn obeys_from_spec() -> bool {
        false
    }

    open spec fn from_spec(v: &str) -> NodeSpec {
        NodeSpec::Plain(choose|s: String| s@ == v@)
    }
}

impl From<String> for NodeSpec {
    fn from(value: String) -> (r: Self)
        ensures
            r == NodeSpec::Plain(value),
    {
        NodeSpec::Plain(value)
    }
}

impl vstd::std_specs::convert::FromSpecImpl<String> for NodeSpec {
    open spec fn obeys_from_spec() -> bool {
        true
    }

    open spec fn from_spec(v: String) -> NodeSpec {
        NodeSpec::Plain(v)
    }
}

impl From<Paragraph> for NodeSpec {
    fn from(value: Paragraph) -> (r: Self)
        ensures
            r == NodeSpec::Paragraph(value),
    {
        NodeSpec::Paragraph(value)
    }
}

impl vstd::std_specs::convert::FromSpecImpl<Paragraph> for NodeSpec {
    open spec fn obeys_from_spec() -> bool {
        true
    }

    open spec fn from_spec(v: Paragraph) -> NodeSpec {
        NodeSpec::Paragraph(v)
    }
}

impl From<Span> for NodeSpec {
    fn from(value: Span) -> (r: Self)
        ensures
            r == NodeSpec::Span(value),
    {
        NodeSpec::Span(value)
    }
}

impl vstd::std_specs::convert::FromSpecImpl<Span> for NodeSpec {
    open spec fn obeys_from_spec() -> bool {
        true
    }

    open spec fn from_spec(v: Span) -> NodeSpec {
        NodeSpec::Span(v)
    }
}

impl From<List> for NodeSpec {
    fn from(value: List) -> (r: Self)
        ensures
            r == NodeSpec::List(value),
    {
        NodeSpec::List(value)
    }
}

impl vstd::std_specs::convert::FromSpecImpl<List> for NodeSpec {
    open spec fn obeys_from_spec() -> bool {
        true
    }

    open spec fn from_spec(v: List) -> NodeSpec {
        NodeSpec::List(v)
    }
}

impl From<ListItem> for NodeSpec {
    fn from(value: ListItem) -> (r: Self)
        ensures
            r == NodeSpec::ListItem(value),
    {
        NodeSpec::ListItem(value)
    }
}

impl vstd::std_specs::convert::FromSpecImpl<ListItem> for NodeSpec {
    open spec fn obeys_from_spec() -> bool {
        true
    }

    open spec fn from_spec(v: ListItem) -> NodeSpec {
        NodeSpec::ListItem(v)
    }
}

impl From<Table> for NodeSpec {
    fn from(value: Table) -> (r: Self)
        ensures
            r == NodeSpec::Table(value),
    {
        NodeSpec::Table(value)
    }
}

impl vstd::std_specs::convert::FromSpecImpl<Table> for NodeSpec {
    open spec fn obeys_from_spec() -> bool {
        true
    }

    open spec fn from_spec(v: Table) -> NodeSpec {
        NodeSpec::Table(v)
    }
}

impl From<Row> for NodeSpec {
    fn from(value: Row) -> (r: Self)
        ensures
            r == NodeSpec::Row(value),
    {
        NodeSpec::Row(value)
    }
}

impl vstd::std_specs::convert::FromSpecImpl<Row> for NodeSpec {
    open spec fn obeys_from_spec() -> bool {
        true
    }

    open spec fn from_spec(v: Row) -> NodeSpec {
        NodeSpec::Row(v)
    }
}

impl From<Cell> for NodeSpec {
    fn from(value: Cell) -> (r: Self)
        ensures
            r == NodeSpec::Cell(value),
    {
        NodeSpec::Cell(value)
    }
}

impl vstd::std_specs::convert::FromSpecImpl<Cell> for NodeSpec {
    open spec fn obeys_from_spec() -> bool {
        true
    }

    open spec fn from_spec(v: Cell) -> NodeSpec {
        NodeSpec::Cell(v)
    }
}

/// Name of a kind, as [`ContentKind::name`] gives it.
pub open spec fn kind_name(kind: ContentKind) -> Seq<char> {
    match kind {
        ContentKind::Root => "Root"@,
        ContentKind::Paragraph => "Paragraph"@,
        ContentKind::Plain => "Plain"@,
        ContentKind::Span => "Span"@,
        ContentKind::List => "List"@,
        ContentKind::ListItem => "ListItem"@,
        ContentKind::Table => "Table"@,
        ContentKind::Row => "Row"@,
        ContentKind::Cell => "Cell"@,
    }
}

/// Kinds that a node of kind `parent` accepts as direct children, in the
/// order of the grammar.
#[verifier::opaque]
pub open spec fn spec_allowed_children(parent: ContentKind) -> Seq<ContentKind> {
    match parent {
        ContentKind::Root => seq![ContentKind::Paragraph, ContentKind::List, ContentKind::Table],
        ContentKind::Paragraph => seq![ContentKind::Plain, ContentKind::Span],
        ContentKind::Span => seq![ContentKind::Plain, ContentKind::Span],
        ContentKind::List => seq![ContentKind::ListItem],
        ContentKind::ListItem => seq![ContentKind::Span, ContentKind::Plain],
        ContentKind::Table => seq![ContentKind::Row],
        ContentKind::Row => seq![ContentKind::Cell],
        ContentKind::Cell => seq![ContentKind::Span, ContentKind::Plain],
        ContentKind::Plain => seq![],
    }
}

/// The grammar: `parent` accepts `child` as a direct child.
pub open spec fn accepts(parent: ContentKind, child: ContentKind) -> bool {
    spec_allowed_children(parent).contains(child)
}

/// `a` and `b` accept the same kinds of children: as many, and every kind
/// that `a` accepts, `b` accepts too.
pub open spec fn same_children_kinds(a: ContentKind, b: ContentKind) -> bool {
    &&& spec_allowed_children(a).len() == spec_allowed_children(b).len()
    &&& forall|k: ContentKind| spec_allowed_children(a).contains(k) ==> spec_allowed_children(b).contains(k)
}

/// Kinds that accept `child`, in the order in which the grammar lists the
/// parent kinds (`Root`, `Paragraph`, `Span`, `List`, `ListItem`, `Table`,
/// `Row`, `Cell`, `Plain`).
pub open spec fn spec_parents(child: ContentKind) -> Seq<ContentKind> {
    match child {
        ContentKind::Root => seq![],
        ContentKind::Paragraph => seq![ContentKind::Root],
        ContentKind::Plain => seq![
            ContentKind::Paragraph,
            ContentKind::Span,
            ContentKind::ListItem,
            ContentKind::Cell,
        ],
        ContentKind::Span => seq![
            ContentKind::Paragraph,
            ContentKind::Span,
            ContentKind::ListItem,
            ContentKind::Cell,
        ],
        ContentKind::List => seq![ContentKind::Root],
        ContentKind::ListItem => seq![ContentKind::List],
        ContentKind::Table => seq![ContentKind::Root],
        ContentKind::Row => seq![ContentKind::Table],
        ContentKind::Cell => seq![ContentKind::Row],
    }
}

/// `path` is an upward chain of kinds ending with `from`, whose first kind
/// is accepted by `to` and where each kind accepts the next one; no kind
/// occurs twice. Inserting the kinds of `path` (without `from`) between `to`
/// and a node of kind `from` yields a valid nesting.
#[verifier::opaque]
pub open spec fn is_ascending_path(path: Seq<ContentKind>, from: ContentKind, to: ContentKind) -> bool {
    &&& path.len() > 0
    &&& path.last() == from
    &&& accepts(to, path[0])
    &&& forall|i: int| 0 <= i < path.len() - 1 ==> accepts(#[trigger] path[i], path[i + 1])
    &&& path.no_duplicates()
}

/// No kind of `path` other than its last one lies in `visited`.
pub open spec fn avoids(path: Seq<ContentKind>, visited: Seq<ContentKind>) -> bool {
    forall|i: int| 0 <= i < path.len() - 1 ==> !occurs(visited, #[trigger] path[i])
}

/// `path` is a shortest ascending path from `from` to `to` among those that
/// avoid `visited`.
pub open spec fn is_shortest_ascending_path(
    path: Seq<ContentKind>,
    from: ContentKind,
    to: ContentKind,
    visited: Seq<ContentKind>,
) -> bool {
    &&& is_ascending_path(path, from, to)
    &&& avoids(path, visited)
    &&& forall|q: Seq<ContentKind>|
        is_ascending_path(q, from, to) && avoids(q, visited) ==> path.len() <= #[trigger] q.len()
}

/// Some ascending path from `from` to `to` avoids `visited`.
pub open spec fn has_ascending_path(from: ContentKind, to: ContentKind, visited: Seq<ContentKind>) -> bool {
    exists|q: Seq<ContentKind>| is_ascending_path(q, from, to) && avoids(q, visited)
}

/// Number of kinds that `visited` does not contain.
pub open spec fn unvisited(visited: Seq<ContentKind>) -> nat {
    (if occurs(visited, ContentKind::Root) { 0nat } else { 1nat })
    + (if occurs(visited, ContentKind::Paragraph) { 0nat } else { 1nat })
    + (if occurs(visited, ContentKind::Plain) { 0nat } else { 1nat })
    + (if occurs(visited, ContentKind::Span) { 0nat } else { 1nat })
    + (if occurs(visited, ContentKind::List) { 0nat } else { 1nat })
    + (if occurs(visited, ContentKind::ListItem) { 0nat } else { 1nat })
    + (if occurs(visited, ContentKind::Table) { 0nat } else { 1nat })
    + (if occurs(visited, ContentKind::Row) { 0nat } else { 1nat })
    + (if occurs(visited, ContentKind::Cell) { 0nat } else { 1nat })
}

/// `k` occurs in `v` (the kinds already visited by a search).
#[verifier::opaque]
pub open spec fn occurs(v: Seq<ContentKind>, k: ContentKind) -> bool {
    v.contains(k)
}

proof fn lemma_push_contains(v: Seq<ContentKind>, x: ContentKind, y: ContentKind)
    ensures
        occurs(v.push(x), y) <==> (occurs(v, y) || y == x),
{
    reveal(occurs);
    if v.push(x).contains(y) {
        let i = choose|i: int| 0 <= i < v.push(x).len() && v.push(x)[i] == y;
        if i < v.len() {
            assert(v[i] == y);
        }
    }
    if v.contains(y) {
        let i = choose|i: int| 0 <= i < v.len() && v[i] == y;
        assert(v.push(x)[i] == y);
    }
    if y == x {
        assert(v.push(x)[v.len() as int] == y);
    }
}

proof fn lemma_unvisited_push(v: Seq<ContentKind>, x: ContentKind)
    ensures
        occurs(v, x) ==> unvisited(v.push(x)) == unvisited(v),
        !occurs(v, x) ==> unvisited(v.push(x)) + 1 == unvisited(v),
{
    lemma_push_contains(v, x, ContentKind::Root);
    lemma_push_contains(v, x, ContentKind::Paragraph);
    lemma_push_contains(v, x, ContentKind::Plain);
    lemma_push_contains(v, x, ContentKind::Span);
    lemma_push_contains(v, x, ContentKind::List);
    lemma_push_contains(v, x, ContentKind::ListItem);
    lemma_push_contains(v, x, ContentKind::Table);
    lemma_push_contains(v, x, ContentKind::Row);
    lemma_push_contains(v, x, ContentKind::Cell);
}

/// `spec_parents(child)` lists exactly the kinds that accept `child`.
pub proof fn lemma_parents_accept(parent: ContentKind, child: ContentKind)
    ensures
        spec_parents(child).contains(parent) <==> accepts(parent, child),
{
    reveal(spec_allowed_children);
    let c = spec_allowed_children(parent);
    let p = spec_parents(child);
    if accepts(parent, child) {
        let i = choose|i: int| 0 <= i < c.len() && c[i] == child;
        match parent {
            ContentKind::Root => {
                assert(p[0] == parent);
            },
            ContentKind::Paragraph => {
                assert(p[0] == parent);
            },
            ContentKind::Span => {
                assert(p[1] == parent);
            },
            ContentKind::List => {
                assert(p[0] == parent);
            },
            ContentKind::ListItem => {
                assert(p[2] == parent);
            },
            ContentKind::Table => {
                assert(p[0] == parent);
            },
            ContentKind::Row => {
                assert(p[0] == parent);
            },
            ContentKind::Cell => {
                assert(p[3] == parent);
            },
            ContentKind::Plain => {},
        }
    }
    if p.contains(parent) {
        let j = choose|j: int| 0 <= j < p.len() && p[j] == parent;
        match child {
            ContentKind::Paragraph => {
                assert(c[0] == child);
            },
            ContentKind::Plain => {
                if parent == ContentKind::ListItem || parent == ContentKind::Cell {
                    assert(c[1] == child);
                } else {
                    assert(c[0] == child);
                }
            },
            ContentKind::Span => {
                if parent == ContentKind::ListItem || parent == ContentKind::Cell {
                    assert(c[0] == child);
                } else {
                    assert(c[1] == child);
                }
            },
            ContentKind::List => {
                assert(c[1] == child);
            },
            ContentKind::ListItem => {
                assert(c[0] == child);
            },
            ContentKind::Table => {
                assert(c[2] == child);
            },
            ContentKind::Row => {
                assert(c[0] == child);
            },
            ContentKind::Cell => {
                assert(c[0] == child);
            },
            ContentKind::Root => {},
        }
    }
}

fn copy_kinds(v: &Vec<ContentKind>) -> (r: Vec<ContentKind>)
    ensures
        r@ == v@,
{
    let mut r = Vec::new();
    let mut i: usize = 0;
    while i < v.len()
        invariant
            i <= v.len(),
            r@ == v@.subrange(0, i as int),
        decreases v.len() - i,
    {
        r.push(v[i]);
        i = i + 1;
        assert(r@ =~= v@.subrange(0, i as int));
    }
    assert(v@.subrange(0, v.len() as int) =~= v@);
    r
}

fn contains_kind(v: &Vec<ContentKind>, k: ContentKind) -> (b: bool)
    ensures
        b == v@.contains(k),
        b == occurs(v@, k),
{
    proof {
        reveal(occurs);
    }
    let b = find_kind(v, k);
    proof {
        reveal(occurs);
    }
    b
}

fn find_kind(v: &Vec<ContentKind>, k: ContentKind) -> (b: bool)
    ensures
        b == v@.contains(k),
{
    let mut i: usize = 0;
    while i < v.len()
        invariant
            i <= v.len(),
            forall|j: int| 0 <= j < i ==> v@[j] != k,
        decreases v.len() - i,
    {
        if v[i] == k {
            return true;
        }
        i = i + 1;
    }
    false
}

impl ContentKind {
    /// Name of the kind, as used to store it and in messages.
    pub fn name(self) -> (s: &'static str)
        ensures
            s@ == kind_name(self),
    {
        match self {
            ContentKind::Root => "Root",
            ContentKind::Paragraph => "Paragraph",
            ContentKind::Plain => "Plain",
            ContentKind::Span => "Span",
            ContentKind::List => "List",
            ContentKind::ListItem => "ListItem",
            ContentKind::Table => "Table",
            ContentKind::Row => "Row",
            ContentKind::Cell => "Cell",
        }
    }

    /// A node of this kind with default attributes.
    pub fn new_default_node(self) -> (n: NodeSpec)
        ensures
            is_default_node(self, n),
            kind_of_spec(n) == self,
    {
        match self {
            ContentKind::Root => NodeSpec::Root,
            ContentKind::Paragraph => NodeSpec::Paragraph(Paragraph),
            ContentKind::Plain => NodeSpec::Plain(String::new()),
            ContentKind::Span => NodeSpec::Span(Span::default()),
            ContentKind::List => NodeSpec::List(List::default()),
            ContentKind::ListItem => NodeSpec::ListItem(ListItem::default()),
            ContentKind::Table => NodeSpec::Table(Table),
            ContentKind::Row => NodeSpec::Row(Row),
            ContentKind::Cell => NodeSpec::Cell(Cell),
        }
    }

    pub fn can_accept_child(self, child: Self) -> (b: bool)
        ensures
            b == accepts(self, child),
    {
        let children = self.allowed_children();
        contains_kind(&children, child)
    }

    /// Kinds of the intermediate nodes to insert between `to` and a node of
    /// kind `self` so that the latter becomes a valid descendant of `to`,
    /// ordered from the one closest to `to` to the one closest to `self`;
    /// `self` never occurs in the result.
    pub fn correction_path(self, to: Self) -> (r: Option<Vec<ContentKind>>)
        ensures
            r is Some <==> has_ascending_path(self, to, Seq::empty()),
            r matches Some(p) ==> is_shortest_ascending_path(p@.push(self), self, to, Seq::empty()),
    {
        let mut path = match self.find_ascending_path(to, Vec::new()) {
            Some(p) => p,
            None => return None,
        };
        let ghost full = path@;
        proof {
            lemma_path_parts(full, self, to);
        }
        path.pop();
        assert(path@.push(self) =~= full);
        Some(path)
    }

    /// Shortest upward chain of kinds that ends with `self` and starts with a
    /// kind accepted by `to`, among those whose kinds (but `self`) are not in
    /// `visited`; there is only one (see [`lemma_shortest_path_unique`]).
    pub fn find_ascending_path(self, to: Self, visited: Vec<ContentKind>) -> (r: Option<Vec<ContentKind>>)
        ensures
            r is Some <==> has_ascending_path(self, to, visited@),
            r matches Some(p) ==> is_shortest_ascending_path(p@, self, to, visited@),
        decreases unvisited(visited@.push(self)),
    {
        let ghost old_visited = visited@;
        let mut seen = copy_kinds(&visited);
        seen.push(self);
        let parents = self.parents();
        proof {
            assert forall|p: ContentKind| parents@.contains(p) <==> accepts(p, self) by {
                lemma_parents_accept(p, self);
            }
        }
        if contains_kind(&parents, to) {
            let mut single = Vec::new();
            single.push(self);
            proof {
                assert(single@ =~= seq![self]);
                assert forall|q: Seq<ContentKind>|
                    is_ascending_path(q, self, to) && avoids(q, old_visited) implies single@.len()
                    <= #[trigger] q.len() by {
                    lemma_path_parts(q, self, to);
                }
                lemma_path_parts(single@, self, to);
                assert(is_ascending_path(single@, self, to));
                assert(avoids(single@, old_visited));
            }
            return Some(single);
        }
        let mut best: Option<Vec<ContentKind>> = None;
        let mut i: usize = 0;
        while i < parents.len()
            invariant
                0 <= i <= parents.len(),
                seen@ == old_visited.push(self),
                old_visited == visited@,
                forall|p: ContentKind| parents@.contains(p) <==> accepts(p, self),
                !accepts(to, self),
                best matches Some(b) ==> {
                    &&& is_ascending_path(b@, b@.last(), to)
                    &&& avoids(b@, seen@)
                    &&& accepts(b@.last(), self)
                    &&& !occurs(seen@, b@.last())
                },
                // Every chain through one of the parents seen so far is no
                // shorter than `best`, and `best` exists when there is one.
                forall|q: Seq<ContentKind>, j: int|
                    0 <= j < i && #[trigger] is_ascending_path(q, parents@[j], to) && avoids(
                        q,
                        seen@,
                    ) && !occurs(seen@, parents@[j]) ==> (best matches Some(b) && b@.len()
                        <= q.len()),
            decreases parents.len() - i,
        {
            let par = parents[i];
            if !contains_kind(&seen, par) {
                proof {
                    lemma_unvisited_push(seen@, par);
                    lemma_unvisited_push(old_visited, self);
                }
                let copy = copy_kinds(&seen);
                assert(unvisited(copy@.push(par)) < unvisited(old_visited.push(self)));
                let found = par.find_ascending_path(to, copy);
                match found {
                    Some(p) => {
                        proof {
                            lemma_path_parts(p@, par, to);
                        }
                        let better = match &best {
                            Some(b) => p.len() < b.len(),
                            None => true,
                        };
                        if better {
                            best = Some(p);
                        }
                    },
                    None => {},
                }
            }
            i = i + 1;
        }
        match best {
            Some(mut b) => {
                let ghost prefix = b@;
                b.push(self);
                proof {
                    lemma_extend_shortest(prefix, self, to, old_visited, parents@);
                    assert(b@ == prefix.push(self));
                }
                Some(b)
            },
            None => {
                proof {
                    assert forall|q: Seq<ContentKind>|
                        !(is_ascending_path(q, self, to) && avoids(q, old_visited)) by {
                        if is_ascending_path(q, self, to) && avoids(q, old_visited) {
                            lemma_shorter_through_parent(q, self, to, old_visited);
                            let r = q.drop_last();
                            let par = r.last();
                            lemma_parents_accept(par, self);
                            let j = choose|j: int| 0 <= j < parents@.len() && parents@[j] == par;
                            assert(is_ascending_path(r, parents@[j], to));
                        }
                    }
                }
                None
            },
        }
    }

    /// Kinds that this kind accepts as direct children.
    pub fn allowed_children(self) -> (v: Vec<ContentKind>)
        ensures
            v@ == spec_allowed_children(self),
    {
        let mut v = Vec::new();
        match self {
            ContentKind::Root => {
                v.push(ContentKind::Paragraph);
                v.push(ContentKind::List);
                v.push(ContentKind::Table);
            },
            ContentKind::Paragraph => {
                v.push(ContentKind::Plain);
                v.push(ContentKind::Span);
            },
            ContentKind::Span => {
                v.push(ContentKind::Plain);
                v.push(ContentKind::Span);
            },
            ContentKind::List => {
                v.push(ContentKind::ListItem);
            },
            ContentKind::ListItem => {
                v.push(ContentKind::Span);
                v.push(ContentKind::Plain);
            },
            ContentKind::Table => {
                v.push(ContentKind::Row);
            },
            ContentKind::Row => {
                v.push(ContentKind::Cell);
            },
            ContentKind::Cell => {
                v.push(ContentKind::Span);
                v.push(ContentKind::Plain);
            },
            ContentKind::Plain => {},
        }
        reveal(spec_allowed_children);
        assert(v@ =~= spec_allowed_children(self));
        v
    }

    /// True when `self` and `other` accept exactly the same kinds of
    /// children (e.g. `Paragraph`, `ListItem` and `Cell` all accept
    /// `Plain`/`Span`): their contents are interchangeable.
    pub fn allowed_children_match(self, other: Self) -> (b: bool)
        ensures
            b == same_children_kinds(self, other),
    {
        let ours = self.allowed_children();
        let theirs = other.allowed_children();
        if ours.len() != theirs.len() {
            return false;
        }
        let mut i: usize = 0;
        while i < ours.len()
            invariant
                0 <= i <= ours.len(),
                ours@ == spec_allowed_children(self),
                theirs@ == spec_allowed_children(other),
                forall|j: int| 0 <= j < i ==> theirs@.contains(#[trigger] ours@[j]),
            decreases ours.len() - i,
        {
            if !contains_kind(&theirs, ours[i]) {
                return false;
            }
            i = i + 1;
        }
        proof {
            assert forall|k: ContentKind| ours@.contains(k) implies theirs@.contains(k) by {
                let j = choose|j: int| 0 <= j < ours@.len() && ours@[j] == k;
            }
        }
        true
    }

    /// Kinds that accept this kind as a direct child, in grammar order.
    pub fn parents(self) -> (v: Vec<ContentKind>)
        ensures
            v@ == spec_parents(self),
    {
        let mut v = Vec::new();
        match self {
            ContentKind::Root => {},
            ContentKind::Paragraph => {
                v.push(ContentKind::Root);
            },
            ContentKind::Plain => {
                v.push(ContentKind::Paragraph);
                v.push(ContentKind::Span);
                v.push(ContentKind::ListItem);
                v.push(ContentKind::Cell);
            },
            ContentKind::Span => {
                v.push(ContentKind::Paragraph);
                v.push(ContentKind::Span);
                v.push(ContentKind::ListItem);
                v.push(ContentKind::Cell);
            },
            ContentKind::List => {
                v.push(ContentKind::Root);
            },
            ContentKind::ListItem => {
                v.push(ContentKind::List);
            },
            ContentKind::Table => {
                v.push(ContentKind::Root);
            },
            ContentKind::Row => {
                v.push(ContentKind::Table);
            },
            ContentKind::Cell => {
                v.push(ContentKind::Row);
            },
        }
        assert(v@ =~= spec_parents(self));
        v
    }
}

proof fn lemma_path_parts(path: Seq<ContentKind>, from: ContentKind, to: ContentKind)
    ensures
        is_ascending_path(path, from, to) <==> {
            &&& path.len() > 0
            &&& path.last() == from
            &&& accepts(to, path[0])
            &&& forall|i: int| 0 <= i < path.len() - 1 ==> accepts(#[trigger] path[i], path[i + 1])
            &&& path.no_duplicates()
        },
{
    reveal(is_ascending_path);
}

proof fn lemma_extend_links(prefix: Seq<ContentKind>, from: ContentKind, to: ContentKind)
    requires
        is_ascending_path(prefix, prefix.last(), to),
        accepts(prefix.last(), from),
    ensures
        forall|k: int|
            0 <= k < prefix.push(from).len() - 1 ==> accepts(
                #[trigger] prefix.push(from)[k],
                prefix.push(from)[k + 1],
            ),
        prefix.push(from).last() == from,
        accepts(to, prefix.push(from)[0]),
        prefix.no_duplicates(),
{
    reveal(is_ascending_path);
    let b = prefix.push(from);
    assert(b[0] == prefix[0]);
    assert forall|k: int| 0 <= k < b.len() - 1 implies accepts(#[trigger] b[k], b[k + 1]) by {
        assert(b[k] == prefix[k]);
        if k < prefix.len() - 1 {
            assert(b[k + 1] == prefix[k + 1]);
        }
    }
}

proof fn lemma_extend_distinct(prefix: Seq<ContentKind>, from: ContentKind)
    requires
        prefix.no_duplicates(),
        forall|k: int| 0 <= k < prefix.len() ==> #[trigger] prefix[k] != from,
    ensures
        prefix.push(from).no_duplicates(),
{
    let b = prefix.push(from);
    assert forall|x: int, y: int| 0 <= x < b.len() && 0 <= y < b.len() && x != y implies b[x]
        != b[y] by {
        if x < prefix.len() {
            assert(b[x] == prefix[x]);
        }
        if y < prefix.len() {
            assert(b[y] == prefix[y]);
        }
    }
}

/// Appending `from` to a chain that reaches one of its parents, and avoids
/// `from` and `visited`, gives a chain from `from` that avoids `visited`.
#[verifier::spinoff_prover]
proof fn lemma_extend_chain(
    prefix: Seq<ContentKind>,
    from: ContentKind,
    to: ContentKind,
    visited: Seq<ContentKind>,
)
    requires
        is_ascending_path(prefix, prefix.last(), to),
        avoids(prefix, visited.push(from)),
        accepts(prefix.last(), from),
        !occurs(visited.push(from), prefix.last()),
    ensures
        is_ascending_path(prefix.push(from), from, to),
        avoids(prefix.push(from), visited),
{
    let b = prefix.push(from);
    let vp = visited.push(from);
    lemma_extend_links(prefix, from, to);
    assert forall|k: int| 0 <= k < prefix.len() implies #[trigger] prefix[k] != from && !occurs(
        visited,
        prefix[k],
    ) by {
        if k < prefix.len() - 1 {
            assert(!occurs(vp, prefix[k]));
        } else {
            assert(!occurs(vp, prefix.last()));
        }
        lemma_push_contains(visited, from, prefix[k]);
    }
    lemma_extend_distinct(prefix, from);
    assert forall|k: int| 0 <= k < b.len() - 1 implies !occurs(visited, #[trigger] b[k]) by {
        assert(b[k] == prefix[k]);
    }
    lemma_path_parts(b, from, to);
}

/// Appending `from` to a shortest chain that reaches one of its parents
/// (shortest among all the parents) gives a shortest chain from `from`.
proof fn lemma_extend_shortest(
    prefix: Seq<ContentKind>,
    from: ContentKind,
    to: ContentKind,
    visited: Seq<ContentKind>,
    parents: Seq<ContentKind>,
)
    requires
        is_ascending_path(prefix, prefix.last(), to),
        avoids(prefix, visited.push(from)),
        accepts(prefix.last(), from),
        !occurs(visited.push(from), prefix.last()),
        !accepts(to, from),
        forall|p: ContentKind| parents.contains(p) <==> accepts(p, from),
        forall|q: Seq<ContentKind>, j: int|
            0 <= j < parents.len() && #[trigger] is_ascending_path(q, parents[j], to) && avoids(
                q,
                visited.push(from),
            ) && !occurs(visited.push(from), parents[j]) ==> prefix.len() <= q.len(),
    ensures
        is_shortest_ascending_path(prefix.push(from), from, to, visited),
{
    lemma_extend_chain(prefix, from, to, visited);
    let b = prefix.push(from);
    assert forall|q: Seq<ContentKind>| is_ascending_path(q, from, to) && avoids(q, visited) implies b.len()
        <= #[trigger] q.len() by {
        lemma_shorter_through_parent(q, from, to, visited);
        let r = q.drop_last();
        let par = r.last();
        let j = choose|j: int| 0 <= j < parents.len() && parents[j] == par;
        assert(is_ascending_path(r, parents[j], to));
    }
}

/// A chain of length at least two, once its last kind is dropped, is a chain
/// to the kind that precedes it.
proof fn lemma_shorter_through_parent(
    q: Seq<ContentKind>,
    from: ContentKind,
    to: ContentKind,
    visited: Seq<ContentKind>,
)
    requires
        is_ascending_path(q, from, to),
        avoids(q, visited),
        !accepts(to, from),
    ensures
        q.len() >= 2,
        accepts(q.drop_last().last(), from),
        is_ascending_path(q.drop_last(), q.drop_last().last(), to),
        avoids(q.drop_last(), visited.push(from)),
        !occurs(visited.push(from), q.drop_last().last()),
{
    reveal(is_ascending_path);
    if q.len() == 1 {
        assert(q[0] == from);
    }
    let r = q.drop_last();
    assert(accepts(q[q.len() - 2], q[q.len() - 1]));
    assert(r.last() == q[q.len() - 2]);
    assert forall|i: int| 0 <= i < r.len() - 1 implies accepts(#[trigger] r[i], r[i + 1]) by {
        assert(accepts(q[i], q[i + 1]));
    }
    assert(r.no_duplicates()) by {
        assert forall|x: int, y: int| 0 <= x < r.len() && 0 <= y < r.len() && x != y implies r[x]
            != r[y] by {
            assert(q[x] != q[y]);
        }
    }
    assert forall|i: int| 0 <= i < r.len() implies #[trigger] r[i] != from by {
        assert(q[i] != q[q.len() - 1]);
    }
    assert forall|i: int| 0 <= i < r.len() - 1 implies !occurs(visited.push(from), #[trigger] r[i]) by {
        assert(!occurs(visited, q[i]));
        lemma_push_contains(visited, from, r[i]);
    }
    lemma_push_contains(visited, from, r.last());
    assert(!occurs(visited, q[q.len() - 2]));
}

/// Nine kinds exist, so a list of distinct kinds holds at most nine.
pub proof fn lemma_distinct_kinds_len(s: Seq<ContentKind>)
    requires
        s.no_duplicates(),
    ensures
        s.len() <= 9,
{
    let all = set![
        ContentKind::Root,
        ContentKind::Paragraph,
        ContentKind::Plain,
        ContentKind::Span,
        ContentKind::List,
        ContentKind::ListItem,
        ContentKind::Table,
        ContentKind::Row,
        ContentKind::Cell,
    ];
    s.unique_seq_to_set();
    assert(s.to_set().subset_of(all)) by {
        assert forall|k: ContentKind| s.to_set().contains(k) implies all.contains(k) by {
            match k {
                ContentKind::Root => {},
                ContentKind::Paragraph => {},
                ContentKind::Plain => {},
                ContentKind::Span => {},
                ContentKind::List => {},
                ContentKind::ListItem => {},
                ContentKind::Table => {},
                ContentKind::Row => {},
                ContentKind::Cell => {},
            }
        }
    }
    assert(all.len() == 9);
    vstd::set_lib::lemma_len_subset(s.to_set(), all);
}

/// A text node can be nested, through intermediate nodes, under a node of
/// any other kind.
pub proof fn lemma_plain_reaches(k: ContentKind)
    requires
        k != ContentKind::Plain,
    ensures
        has_ascending_path(ContentKind::Plain, k, Seq::empty()),
{
    reveal(is_ascending_path);
    reveal(spec_allowed_children);
    reveal(occurs);
    assert(spec_allowed_children(ContentKind::Root)[0] == ContentKind::Paragraph);
    assert(spec_allowed_children(ContentKind::Paragraph)[0] == ContentKind::Plain);
    assert(spec_allowed_children(ContentKind::Span)[0] == ContentKind::Plain);
    assert(spec_allowed_children(ContentKind::List)[0] == ContentKind::ListItem);
    assert(spec_allowed_children(ContentKind::ListItem)[1] == ContentKind::Plain);
    assert(spec_allowed_children(ContentKind::Table)[0] == ContentKind::Row);
    assert(spec_allowed_children(ContentKind::Row)[0] == ContentKind::Cell);
    assert(spec_allowed_children(ContentKind::Cell)[1] == ContentKind::Plain);
    let q: Seq<ContentKind> = match k {
        ContentKind::Root => seq![ContentKind::Paragraph, ContentKind::Plain],
        ContentKind::List => seq![ContentKind::ListItem, ContentKind::Plain],
        ContentKind::Table => seq![ContentKind::Row, ContentKind::Cell, ContentKind::Plain],
        ContentKind::Row => seq![ContentKind::Cell, ContentKind::Plain],
        _ => seq![ContentKind::Plain],
    };
    assert(accepts(k, q[0]));
    assert forall|i: int| 0 <= i < q.len() - 1 implies accepts(#[trigger] q[i], q[i + 1]) by {}
    assert(q.no_duplicates());
    assert(is_ascending_path(q, ContentKind::Plain, k));
    assert(avoids(q, Seq::empty()));
}

/// Who accepts whom, kind by kind.
proof fn lemma_accepts_cases(parent: ContentKind, child: ContentKind)
    ensures
        accepts(parent, child) <==> match child {
            ContentKind::Root => false,
            ContentKind::Paragraph | ContentKind::List | ContentKind::Table => parent == ContentKind::Root,
            ContentKind::Plain | ContentKind::Span => parent == ContentKind::Paragraph || parent == ContentKind::Span
                || parent == ContentKind::ListItem || parent == ContentKind::Cell,
            ContentKind::ListItem => parent == ContentKind::List,
            ContentKind::Row => parent == ContentKind::Table,
            ContentKind::Cell => parent == ContentKind::Row,
        },
{
    reveal(spec_allowed_children);
    let c = spec_allowed_children(parent);
    match parent {
        ContentKind::Root => {
            assert(c =~= seq![ContentKind::Paragraph, ContentKind::List, ContentKind::Table]);
        },
        ContentKind::Paragraph | ContentKind::Span | ContentKind::ListItem | ContentKind::Cell => {
            assert(c.len() == 2);
        },
        ContentKind::List => {
            assert(c =~= seq![ContentKind::ListItem]);
        },
        ContentKind::Table => {
            assert(c =~= seq![ContentKind::Row]);
        },
        ContentKind::Row => {
            assert(c =~= seq![ContentKind::Cell]);
        },
        ContentKind::Plain => {
            assert(c.len() == 0);
        },
    }
    if c.contains(child) {
        let i = choose|i: int| 0 <= i < c.len() && c[i] == child;
        assert(i == 0 || i == 1 || i == 2);
    }
    if c.len() > 0 && child == c[0] {
        assert(c.contains(c[0]));
    }
    if c.len() > 1 && child == c[1] {
        assert(c.contains(c[1]));
    }
    if c.len() > 2 && child == c[2] {
        assert(c.contains(c[2]));
    }
}

/// Every kind that accepts `Span` accepts `Plain` too.
proof fn lemma_span_parents_accept_plain(k: ContentKind)
    requires
        accepts(k, ContentKind::Span),
    ensures
        accepts(k, ContentKind::Plain),
{
    lemma_accepts_cases(k, ContentKind::Span);
    lemma_accepts_cases(k, ContentKind::Plain);
}

/// A `Span` above the end of an ascending path can be left out: what
/// remains is still an ascending path, and avoids what the path avoided.
#[verifier::rlimit(30)]
#[verifier::spinoff_prover]
proof fn lemma_drop_span(p: Seq<ContentKind>, i: int, from: ContentKind, to: ContentKind, visited: Seq<ContentKind>)
    requires
        is_ascending_path(p, from, to),
        avoids(p, visited),
        0 <= i < p.len() - 1,
        p[i] == ContentKind::Span,
    ensures
        is_ascending_path(p.remove(i), from, to),
        avoids(p.remove(i), visited),
        p.remove(i).len() == p.len() - 1,
{
    lemma_path_parts(p, from, to);
    lemma_accepts_cases(p[i], p[i + 1]);
    assert(p[i + 1] != ContentKind::Span);
    assert(p[i + 1] == ContentKind::Plain);
    if i + 1 < p.len() - 1 {
        lemma_accepts_cases(p[i + 1], p[i + 2]);
        assert(accepts(p[i + 1], p[i + 2]));
    }
    assert(i + 1 == p.len() - 1);
    let q = p.remove(i);
    assert(q.len() == p.len() - 1);
    assert(q.last() == from);
    if i == 0 {
        lemma_span_parents_accept_plain(to);
        assert(q[0] == ContentKind::Plain);
    } else {
        assert(accepts(p[i - 1], p[i]));
        lemma_span_parents_accept_plain(p[i - 1]);
        assert(accepts(q[i - 1], q[i]));
    }
    assert forall|j: int| 0 <= j < q.len() - 1 implies accepts(#[trigger] q[j], q[j + 1]) by {
        if j < i - 1 {
            assert(q[j] == p[j] && q[j + 1] == p[j + 1]);
        }
    }
    assert(q.no_duplicates()) by {
        assert forall|a: int, b: int| 0 <= a < b < q.len() implies q[a] != q[b] by {
            let pa = if a < i { a } else { a + 1 };
            let pb = if b < i { b } else { b + 1 };
            assert(q[a] == p[pa] && q[b] == p[pb]);
        }
    }
    lemma_path_parts(q, from, to);
    assert forall|j: int| 0 <= j < q.len() - 1 implies !occurs(visited, #[trigger] q[j]) by {
        assert(q[j] == p[j]);
    }
}

/// A shortest ascending path holds `Span` and `Plain` nowhere but at its
/// end.
#[verifier::spinoff_prover]
#[verifier::rlimit(30)]
proof fn lemma_no_inner_span(p: Seq<ContentKind>, from: ContentKind, to: ContentKind, visited: Seq<ContentKind>)
    requires
        is_shortest_ascending_path(p, from, to, visited),
    ensures
        forall|i: int| 0 <= i < p.len() - 1 ==> #[trigger] p[i] != ContentKind::Span,
        forall|i: int| 0 <= i < p.len() - 1 ==> #[trigger] p[i] != ContentKind::Plain,
{
    lemma_path_parts(p, from, to);
    assert forall|i: int| 0 <= i < p.len() - 1 implies #[trigger] p[i] != ContentKind::Plain by {
        lemma_accepts_cases(p[i], p[i + 1]);
    }
    assert forall|i: int| 0 <= i < p.len() - 1 implies #[trigger] p[i] != ContentKind::Span by {
        if p[i] == ContentKind::Span {
            lemma_drop_span(p, i, from, to, visited);
            assert(p.len() <= p.remove(i).len());
        }
    }
}

/// Above its last kind, an ascending path that holds no `Plain` and no
/// `Span` there climbs the one chain of parents of the kind just above its
/// end; how long it is tells where it starts, and so which kinds accept it.
#[verifier::spinoff_prover]
#[verifier::rlimit(30)]
proof fn lemma_route(p: Seq<ContentKind>, from: ContentKind, to: ContentKind)
    requires
        is_ascending_path(p, from, to),
        p.len() >= 2,
        forall|i: int| 0 <= i < p.len() - 1 ==> #[trigger] p[i] != ContentKind::Span,
        forall|i: int| 0 <= i < p.len() - 1 ==> #[trigger] p[i] != ContentKind::Plain,
    ensures
        p[p.len() - 2] == ContentKind::Paragraph ==> p.len() == 2 && to == ContentKind::Root,
        p[p.len() - 2] == ContentKind::ListItem ==> (p.len() == 2 && to == ContentKind::List) || (p.len() == 3 && to
            == ContentKind::Root),
        p[p.len() - 2] == ContentKind::Cell ==> (p.len() == 2 && to == ContentKind::Row) || (p.len() == 3 && to
            == ContentKind::Table) || (p.len() == 4 && to == ContentKind::Root),
{
    lemma_path_parts(p, from, to);
    let n = p.len() as int;
    lemma_accepts_cases(to, p[0]);
    assert forall|i: int| 0 <= i < n - 1 implies #[trigger] accepts(p[i], p[i + 1]) by {}
    if n >= 3 {
        lemma_accepts_cases(p[n - 3], p[n - 2]);
        assert(accepts(p[n - 3], p[n - 2]));
    }
    if n >= 4 {
        lemma_accepts_cases(p[n - 4], p[n - 3]);
        assert(accepts(p[n - 4], p[n - 3]));
    }
    if n >= 5 {
        lemma_accepts_cases(p[n - 5], p[n - 4]);
        assert(accepts(p[n - 5], p[n - 4]));
    }
    if n >= 6 {
        lemma_accepts_cases(p[n - 6], p[n - 5]);
        assert(accepts(p[n - 6], p[n - 5]));
    }
}

/// Two paths of the same length that agree from position `k` on, and hold
/// no `Plain` and no `Span` before their end, agree everywhere: each kind
/// there has a single parent.
proof fn lemma_agree_down(p: Seq<ContentKind>, q: Seq<ContentKind>, k: int)
    requires
        p.len() == q.len(),
        0 <= k <= p.len() - 2,
        forall|i: int| k <= i < p.len() ==> p[i] == q[i],
        forall|i: int| 0 <= i < p.len() - 1 ==> accepts(#[trigger] p[i], p[i + 1]),
        forall|i: int| 0 <= i < q.len() - 1 ==> accepts(#[trigger] q[i], q[i + 1]),
        forall|i: int| 0 <= i < p.len() - 1 ==> #[trigger] p[i] != ContentKind::Span,
        forall|i: int| 0 <= i < p.len() - 1 ==> #[trigger] p[i] != ContentKind::Plain,
    ensures
        forall|i: int| 0 <= i < p.len() ==> p[i] == q[i],
    decreases k,
{
    if k > 0 {
        assert(accepts(p[k - 1], p[k]));
        assert(accepts(q[k - 1], q[k]));
        lemma_accepts_cases(p[k - 1], p[k]);
        lemma_accepts_cases(q[k - 1], q[k]);
        lemma_agree_down(p, q, k - 1);
    }
}

/// Shortest ascending paths are unique: the grammar leaves one way up from
/// a kind to the kinds that a given kind accepts, once paths through a
/// `Span` that could be left out are set aside.
#[verifier::spinoff_prover]
#[verifier::rlimit(30)]
pub proof fn lemma_shortest_path_unique(
    p: Seq<ContentKind>,
    q: Seq<ContentKind>,
    from: ContentKind,
    to: ContentKind,
    visited: Seq<ContentKind>,
)
    requires
        is_shortest_ascending_path(p, from, to, visited),
        is_shortest_ascending_path(q, from, to, visited),
    ensures
        p == q,
{
    assert(p.len() <= q.len());
    assert(q.len() <= p.len());
    let n = p.len() as int;
    lemma_no_inner_span(p, from, to, visited);
    lemma_no_inner_span(q, from, to, visited);
    lemma_path_parts(p, from, to);
    lemma_path_parts(q, from, to);
    if n >= 2 {
        assert(accepts(p[n - 2], p[n - 1]));
        assert(accepts(q[n - 2], q[n - 1]));
        lemma_accepts_cases(p[n - 2], from);
        lemma_accepts_cases(q[n - 2], from);
        lemma_route(p, from, to);
        lemma_route(q, from, to);
        assert(p[n - 2] == q[n - 2]);
        lemma_agree_down(p, q, n - 2);
    }
    assert(p =~= q);
}

/// Two kinds accept the same children (see `allowed_children_match`)
/// exactly when the sets of the kinds they accept are equal; hence the
/// relation is symmetric, and every kind matches itself.
pub proof fn lemma_children_match_sets(a: ContentKind, b: ContentKind)
    ensures
        same_children_kinds(a, b) <==> spec_allowed_children(a).to_set() == spec_allowed_children(b).to_set(),
        same_children_kinds(a, b) == same_children_kinds(b, a),
        same_children_kinds(a, a),
{
    lemma_match_iff_sets(a, b);
    lemma_match_iff_sets(b, a);
    lemma_match_iff_sets(a, a);
}

#[verifier::spinoff_prover]
proof fn lemma_match_iff_sets(a: ContentKind, b: ContentKind)
    ensures
        same_children_kinds(a, b) <==> spec_allowed_children(a).to_set() == spec_allowed_children(b).to_set(),
{
    reveal(spec_allowed_children);
    let sa = spec_allowed_children(a);
    let sb = spec_allowed_children(b);
    assert forall|k: ContentKind| sa.contains(k) <==> #[trigger] sa.to_set().contains(k) by {}
    assert forall|k: ContentKind| sb.contains(k) <==> #[trigger] sb.to_set().contains(k) by {}
    assert forall|k: ContentKind| #[trigger] sa.contains(k) <==> accepts(a, k) by {}
    assert forall|k: ContentKind| #[trigger] sb.contains(k) <==> accepts(b, k) by {}
    assert forall|k: ContentKind| accepts(a, k) == #[trigger] accepts_row(a, k) by {
        lemma_accepts_cases(a, k);
    }
    assert forall|k: ContentKind| accepts(b, k) == #[trigger] accepts_row(b, k) by {
        lemma_accepts_cases(b, k);
    }
    if same_children_kinds(a, b) {
        assert(sa.to_set() =~= sb.to_set()) by {
            // Every kind of the grammar, to count the kinds each accepts.
            assert forall|k: ContentKind| sb.contains(k) implies sa.contains(k) by {
                assert(accepts_row(a, ContentKind::Root) == accepts(a, ContentKind::Root));
                assert(accepts_row(a, ContentKind::Paragraph) == accepts(a, ContentKind::Paragraph));
                assert(accepts_row(a, ContentKind::Plain) == accepts(a, ContentKind::Plain));
                assert(accepts_row(a, ContentKind::Span) == accepts(a, ContentKind::Span));
                assert(accepts_row(a, ContentKind::List) == accepts(a, ContentKind::List));
                assert(accepts_row(a, ContentKind::ListItem) == accepts(a, ContentKind::ListItem));
                assert(accepts_row(a, ContentKind::Table) == accepts(a, ContentKind::Table));
                assert(accepts_row(a, ContentKind::Row) == accepts(a, ContentKind::Row));
                assert(accepts_row(a, ContentKind::Cell) == accepts(a, ContentKind::Cell));
            }
        }
    }
    lemma_rows_distinct(a);
    lemma_rows_distinct(b);
    sa.unique_seq_to_set();
    sb.unique_seq_to_set();
    if sa.to_set() == sb.to_set() {
        assert forall|k: ContentKind| sa.contains(k) implies sb.contains(k) by {
            assert(sa.to_set().contains(k));
        }
    }
}

/// No kind occurs twice in a row of the grammar.
proof fn lemma_rows_distinct(k: ContentKind)
    ensures
        spec_allowed_children(k).no_duplicates(),
{
    reveal(spec_allowed_children);
    let s = spec_allowed_children(k);
    assert forall|i: int, j: int| 0 <= i < s.len() && 0 <= j < s.len() && i != j implies s[i] != s[j] by {
        match k {
            ContentKind::Root => {},
            ContentKind::Paragraph => {},
            ContentKind::Span => {},
            ContentKind::List => {},
            ContentKind::ListItem => {},
            ContentKind::Table => {},
            ContentKind::Row => {},
            ContentKind::Cell => {},
            ContentKind::Plain => {},
        }
    }
}

/// The children that `parent` accepts, kind by kind.
spec fn accepts_row(parent: ContentKind, child: ContentKind) -> bool {
    match child {
        ContentKind::Root => false,
        ContentKind::Paragraph | ContentKind::List | ContentKind::Table => parent == ContentKind::Root,
        ContentKind::Plain | ContentKind::Span => parent == ContentKind::Paragraph || parent == ContentKind::Span
            || parent == ContentKind::ListItem || parent == ContentKind::Cell,
        ContentKind::ListItem => parent == ContentKind::List,
        ContentKind::Row => parent == ContentKind::Table,
        ContentKind::Cell => parent == ContentKind::Row,
    }
}

} // verus!
