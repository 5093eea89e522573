//! Reading the raw entities from a stream of markup events.
//!
//! The events come from a reader of the document; this module decides what
//! each of them does to the entities read so far. Nodes come before the ways
//! that name them, and ways before the relations that name them, so one pass
//! suffices.

use vstd::prelude::*;
use vstd::string::StringSliceAdditionalSpecFns;
use crate::bytes::{bytes_eq, copy_bytes};
use crate::data::osm::{
    IdTable, Node, NodeView, Relation, RelationView, TagSet, Way, WayView, node_views, way_views,
};
use crate::errors::{Error, ErrorKind, Result};

verus! {

/// An attribute of an element: its key and its value as written, and, where
/// the value reads as a decimal number, the bit pattern of that number as a
/// binary64 value.
#[derive(Debug)]
pub struct Attribute {
    pub key: Vec<u8>,
    pub value: Vec<u8>,
    pub decimal: Option<u64>,
}

/// An element's opening: its name and its attributes in the order written,
/// up to the first one that is malformed, if `malformed` says there is one.
#[derive(Debug)]
pub struct Element {
    pub name: Vec<u8>,
    pub attributes: Vec<Attribute>,
    pub malformed: bool,
}

/// What a reader of the document reports.
#[derive(Debug)]
pub enum XmlEvent {
    /// An element opens.
    Start(Element),
    /// The element of the given name closes.
    End(Vec<u8>),
    /// An element that opens and closes at once.
    Empty(Element),
    /// Text between elements.
    Text,
    /// The declaration at the head of the document.
    Decl,
    /// The end of the document.
    Eof,
    /// Anything else: a comment, a processing instruction and the like.
    Other,
}

/// An ASCII digit.
pub open spec fn is_digit(b: u8) -> bool {
    48 <= b <= 57
}

/// The number that a string of digits writes.
pub open spec fn digits_value(s: Seq<u8>) -> nat
    decreases s.len(),
{
    if s.len() == 0 {
        0
    } else {
        digits_value(s.drop_last()) * 10 + (s.last() - 48) as nat
    }
}

/// The digits of a number as written: what follows an optional plus sign.
pub open spec fn unsigned_part(s: Seq<u8>) -> Seq<u8> {
    if s.len() > 0 && s[0] == 43 {
        s.subrange(1, s.len() as int)
    } else {
        s
    }
}

/// The number that a byte string writes in decimal: an optional plus sign,
/// then one digit or more, and a value that fits in 64 bits.
pub open spec fn decimal_u64(s: Seq<u8>) -> Option<u64> {
    let d = unsigned_part(s);
    if d.len() > 0 && (forall|i: int| 0 <= i < d.len() ==> is_digit(#[trigger] d[i])) && digits_value(d)
        <= u64::MAX {
        Some(digits_value(d) as u64)
    } else {
        None
    }
}

/// More digits never write a smaller number.
pub proof fn lemma_digits_prefix(s: Seq<u8>, i: int)
    requires
        0 <= i <= s.len(),
        forall|k: int| 0 <= k < s.len() ==> is_digit(#[trigger] s[k]),
    ensures
        digits_value(s.subrange(0, i)) <= digits_value(s),
    decreases s.len() - i,
{
    if i < s.len() {
        lemma_digits_prefix(s, i + 1);
        assert(s.subrange(0, i + 1).drop_last() =~= s.subrange(0, i));
    } else {
        assert(s.subrange(0, i) =~= s);
    }
}

/// Reads a decimal number.
pub fn parse_u64(s: &[u8]) -> (r: Option<u64>)
    ensures
        r == decimal_u64(s@),
{
    let n = s.len();
    let start: usize = if n > 0 && s[0] == 43 {
        1
    } else {
        0
    };
    let ghost d = unsigned_part(s@);
    assert(d =~= s@.subrange(start as int, n as int));
    if start == n {
        return None;
    }
    let mut acc: u64 = 0;
    let mut i: usize = start;
    while i < n
        invariant
            n == s.len(),
            start <= i <= n,
            d == s@.subrange(start as int, n as int),
            d == unsigned_part(s@),
            forall|k: int| 0 <= k < i - start ==> is_digit(#[trigger] d[k]),
            acc == digits_value(d.subrange(0, i - start)),
        decreases n - i,
    {
        let b = s[i];
        assert(d[i - start] == b);
        if b < 48 || b > 57 {
            assert(!is_digit(d[i - start]));
            return None;
        }
        let digit: u64 = (b - 48) as u64;
        proof {
            assert(d.subrange(0, i - start + 1).drop_last() =~= d.subrange(0, i - start));
        }
        if acc > (u64::MAX - digit) / 10 {
            proof {
                let longer = d.subrange(0, i - start + 1);
                assert(digits_value(longer) == acc * 10 + digit);
                assert(digits_value(longer) > u64::MAX);
                if forall|k: int| 0 <= k < d.len() ==> is_digit(#[trigger] d[k]) {
                    lemma_digits_prefix(d, i - start + 1);
                }
            }
            return None;
        }
        acc = acc * 10 + digit;
        i += 1;
    }
    assert(d.subrange(0, n - start) =~= d);
    Some(acc)
}

/// The value of the first attribute at or after `from` whose key is `name`.
pub open spec fn find_attr(attrs: Seq<Attribute>, name: Seq<u8>, from: int) -> Option<Seq<u8>>
    decreases attrs.len() - from,
{
    if from < 0 || from >= attrs.len() {
        None
    } else if attrs[from].key@ == name {
        Some(attrs[from].value@)
    } else {
        find_attr(attrs, name, from + 1)
    }
}

/// The value of the attribute `name` of an element. Where the element has
/// none, the failure is one of decoding if an attribute was malformed, and a
/// missing attribute otherwise.
pub open spec fn attr_value(el: Element, name: Seq<u8>) -> std::result::Result<Seq<u8>, ErrorKind> {
    match find_attr(el.attributes@, name, 0) {
        Some(v) => Ok(v),
        None => if el.malformed {
            Err(ErrorKind::Decode)
        } else {
            Err(ErrorKind::Attribute)
        },
    }
}

/// The identifier that the attribute `name` of an element writes.
pub open spec fn attr_id(el: Element, name: Seq<u8>) -> std::result::Result<u64, ErrorKind> {
    match attr_value(el, name) {
        Ok(v) => match decimal_u64(v) {
            Some(id) => Ok(id),
            None => Err(ErrorKind::Decode),
        },
        Err(k) => Err(k),
    }
}

/// The node that a run of attributes describes: `id`, `lat` and `lon` set
/// its fields, `version` is passed over, and any other key is refused. A
/// field that no attribute sets is zero.
pub open spec fn node_of_attrs(attrs: Seq<Attribute>) -> std::result::Result<NodeView, ErrorKind>
    decreases attrs.len(),
{
    if attrs.len() == 0 {
        Ok(NodeView { id: 0, lat: 0, lon: 0, tags: Map::empty() })
    } else {
        match node_of_attrs(attrs.drop_last()) {
            Err(k) => Err(k),
            Ok(n) => {
                let a = attrs.last();
                if a.key@ == "id".spec_bytes() {
                    match decimal_u64(a.value@) {
                        Some(id) => Ok(NodeView { id, ..n }),
                        None => Err(ErrorKind::Decode),
                    }
                } else if a.key@ == "lat".spec_bytes() {
                    match a.decimal {
                        Some(lat) => Ok(NodeView { lat, ..n }),
                        None => Err(ErrorKind::Decode),
                    }
                } else if a.key@ == "lon".spec_bytes() {
                    match a.decimal {
                        Some(lon) => Ok(NodeView { lon, ..n }),
                        None => Err(ErrorKind::Decode),
                    }
                } else if a.key@ == "version".spec_bytes() {
                    Ok(n)
                } else {
                    Err(ErrorKind::Attribute)
                }
            },
        }
    }
}

/// The node that an element describes. A malformed attribute is a failure
/// of decoding, unless an attribute before it has failed already.
pub open spec fn node_of_element(el: Element) -> std::result::Result<NodeView, ErrorKind> {
    match node_of_attrs(el.attributes@) {
        Err(k) => Err(k),
        Ok(n) => if el.malformed {
            Err(ErrorKind::Decode)
        } else {
            Ok(n)
        },
    }
}

/// Once a run of attributes has failed, attributes after it change nothing.
pub proof fn lemma_node_of_attrs_fails(attrs: Seq<Attribute>, i: int)
    requires
        0 <= i <= attrs.len(),
        node_of_attrs(attrs.subrange(0, i)) is Err,
    ensures
        node_of_attrs(attrs) == node_of_attrs(attrs.subrange(0, i)),
    decreases attrs.len() - i,
{
    if i < attrs.len() {
        assert(attrs.subrange(0, i + 1).drop_last() =~= attrs.subrange(0, i));
        lemma_node_of_attrs_fails(attrs, i + 1);
    } else {
        assert(attrs.subrange(0, i) =~= attrs);
    }
}

/// An unknown attribute makes the whole element fail: with the failure of
/// the first attribute that fails.
pub proof fn lemma_unknown_attribute_fails(el: Element, i: int)
    requires
        0 <= i < el.attributes@.len(),
        el.attributes@[i].key@ != "id".spec_bytes(),
        el.attributes@[i].key@ != "lat".spec_bytes(),
        el.attributes@[i].key@ != "lon".spec_bytes(),
        el.attributes@[i].key@ != "version".spec_bytes(),
    ensures
        node_of_element(el) is Err,
{
    let attrs = el.attributes@;
    assert(attrs.subrange(0, i + 1).drop_last() =~= attrs.subrange(0, i));
    assert(attrs.subrange(0, i + 1).last() == attrs[i]);
    lemma_node_of_attrs_fails(attrs, i + 1);
}

/// The value of the attribute `name` of an element.
pub fn get_attr<'a>(el: &'a Element, name: &[u8]) -> (r: Result<&'a Vec<u8>>)
    ensures
        match attr_value(*el, name@) {
            Ok(v) => r is Ok && r->Ok_0@ == v,
            Err(k) => r is Err && r->Err_0.kind == k,
        },
{
    let n = el.attributes.len();
    let mut i: usize = 0;
    while i < n
        invariant
            n == el.attributes@.len(),
            i <= n,
            find_attr(el.attributes@, name@, 0) == find_attr(el.attributes@, name@, i as int),
        decreases n - i,
    {
        if bytes_eq(el.attributes[i].key.as_slice(), name) {
            return Ok(&el.attributes[i].value);
        }
        i += 1;
    }
    if el.malformed {
        Err(Error::new(ErrorKind::Decode, "malformed attribute"))
    } else {
        Err(Error::new(ErrorKind::Attribute, "attribute not in element"))
    }
}

/// The identifier that the attribute `name` of an element writes.
pub fn parse_attr(el: &Element, name: &[u8]) -> (r: Result<u64>)
    ensures
        match attr_id(*el, name@) {
            Ok(id) => r is Ok && r->Ok_0 == id,
            Err(k) => r is Err && r->Err_0.kind == k,
        },
{
    match get_attr(el, name) {
        Ok(value) => match parse_u64(value.as_slice()) {
            Some(id) => Ok(id),
            None => Err(Error::new(ErrorKind::Decode, "malformed number")),
        },
        Err(e) => Err(e),
    }
}

/// The node that an element describes, without tags.
pub fn parse_node(el: &Element) -> (r: Result<Node>)
    ensures
        match node_of_element(*el) {
            Ok(n) => r is Ok && r->Ok_0@ == n,
            Err(k) => r is Err && r->Err_0.kind == k,
        },
{
    let ghost attrs = el.attributes@;
    let mut id: u64 = 0;
    let mut lat: u64 = 0;
    let mut lon: u64 = 0;
    let n = el.attributes.len();
    let mut i: usize = 0;
    assert(attrs.subrange(0, 0) =~= Seq::<Attribute>::empty());
    while i < n
        invariant
            n == el.attributes@.len(),
            attrs == el.attributes@,
            i <= n,
            node_of_attrs(attrs.subrange(0, i as int)) == Ok::<NodeView, ErrorKind>(
                NodeView { id, lat, lon, tags: Map::empty() },
            ),
        decreases n - i,
    {
        let a = &el.attributes[i];
        proof {
            assert(attrs.subrange(0, i + 1).drop_last() =~= attrs.subrange(0, i as int));
            assert(attrs.subrange(0, i + 1).last() == attrs[i as int]);
        }
        let key = a.key.as_slice();
        if bytes_eq(key, "id".as_bytes()) {
            match parse_u64(a.value.as_slice()) {
                Some(v) => {
                    id = v;
                },
                None => {
                    proof {
                        lemma_node_of_attrs_fails(attrs, i + 1);
                    }
                    return Err(Error::new(ErrorKind::Decode, "malformed node identifier"));
                },
            }
        } else if bytes_eq(key, "lat".as_bytes()) {
            match a.decimal {
                Some(v) => {
                    lat = v;
                },
                None => {
                    proof {
                        lemma_node_of_attrs_fails(attrs, i + 1);
                    }
                    return Err(Error::new(ErrorKind::Decode, "malformed latitude"));
                },
            }
        } else if bytes_eq(key, "lon".as_bytes()) {
            match a.decimal {
                Some(v) => {
                    lon = v;
                },
                None => {
                    proof {
                        lemma_node_of_attrs_fails(attrs, i + 1);
                    }
                    return Err(Error::new(ErrorKind::Decode, "malformed longitude"));
                },
            }
        } else if bytes_eq(key, "version".as_bytes()) {
        } else {
            proof {
                lemma_node_of_attrs_fails(attrs, i + 1);
            }
            return Err(Error::new(ErrorKind::Attribute, "unexpected attribute of a node"));
        }
        i += 1;
    }
    assert(attrs.subrange(0, n as int) =~= attrs);
    if el.malformed {
        return Err(Error::new(ErrorKind::Decode, "malformed attribute"));
    }
    Ok(Node { id, lon, lat, tags: TagSet::new() })
}

/// Where the reader stands: between entities, or inside the one it is
/// reading.
#[derive(Debug)]
pub enum ParserState {
    Top,
    Node(Node),
    Way(Way),
    Relation(Relation),
}

/// `ParserState` as what it is.
pub enum StateView {
    Top,
    Node(NodeView),
    Way(WayView),
    Relation(RelationView),
}

impl View for ParserState {
    type V = StateView;

    open spec fn view(&self) -> StateView {
        match self {
            ParserState::Top => StateView::Top,
            ParserState::Node(n) => StateView::Node(n@),
            ParserState::Way(w) => StateView::Way(w@),
            ParserState::Relation(r) => StateView::Relation(r@),
        }
    }
}

/// All that the reading has come to: the state, the entities finished so
/// far, and the identifiers of nodes that ways named in vain.
#[derive(Debug)]
pub struct ParserContext {
    pub state: ParserState,
    pub nodes: IdTable<Node>,
    pub ways: IdTable<Way>,
    pub relations: IdTable<Relation>,
    pub unresolved: Vec<u64>,
}

/// `ParserContext` as what it is.
pub struct ContextView {
    pub state: StateView,
    pub nodes: Map<u64, NodeView>,
    pub ways: Map<u64, WayView>,
    pub relations: Map<u64, RelationView>,
    pub unresolved: Seq<u64>,
}

impl View for ParserContext {
    type V = ContextView;

    open spec fn view(&self) -> ContextView {
        ContextView {
            state: self.state@,
            nodes: self.nodes@,
            ways: self.ways@,
            relations: self.relations@,
            unresolved: self.unresolved@,
        }
    }
}

/// The context before anything is read.
pub open spec fn initial_context() -> ContextView {
    ContextView {
        state: StateView::Top,
        nodes: Map::empty(),
        ways: Map::empty(),
        relations: Map::empty(),
        unresolved: Seq::empty(),
    }
}

/// What a `nd` element does inside a way: a node that has been read is
/// copied to the end of the way; the identifier of one that has not is noted
/// and the way goes without it.
pub open spec fn after_nd(c: ContextView, w: WayView, el: Element) -> std::result::Result<
    ContextView,
    ErrorKind,
> {
    match attr_id(el, "ref".spec_bytes()) {
        Err(k) => Err(k),
        Ok(id) => if c.nodes.contains_key(id) {
            Ok(ContextView { state: StateView::Way(WayView { nodes: w.nodes.push(c.nodes[id]), ..w }), ..c })
        } else {
            Ok(ContextView { unresolved: c.unresolved.push(id), ..c })
        },
    }
}

/// What a `member` element does inside a relation: a member that is a way
/// is copied to the end of the relation, and must have been read; any other
/// member is passed over.
pub open spec fn after_member(c: ContextView, r: RelationView, el: Element) -> std::result::Result<
    ContextView,
    ErrorKind,
> {
    match attr_value(el, "type".spec_bytes()) {
        Err(k) => Err(k),
        Ok(t) => if t != "way".spec_bytes() {
            Ok(c)
        } else {
            match attr_id(el, "ref".spec_bytes()) {
                Err(k) => Err(k),
                Ok(id) => if c.ways.contains_key(id) {
                    Ok(
                        ContextView {
                            state: StateView::Relation(
                                RelationView { ways: r.ways.push(c.ways[id]), ..r },
                            ),
                            ..c
                        },
                    )
                } else {
                    Err(ErrorKind::Reference)
                },
            }
        },
    }
}

/// What a `tag` element does: it sets a tag of the entity being read.
pub open spec fn after_tag(c: ContextView, el: Element) -> std::result::Result<
    ContextView,
    ErrorKind,
> {
    match attr_value(el, "k".spec_bytes()) {
        Err(k) => Err(k),
        Ok(key) => match attr_value(el, "v".spec_bytes()) {
            Err(k) => Err(k),
            Ok(value) => match c.state {
                StateView::Top => Err(ErrorKind::Structure),
                StateView::Node(n) => Ok(
                    ContextView {
                        state: StateView::Node(NodeView { tags: n.tags.insert(key, value), ..n }),
                        ..c
                    },
                ),
                StateView::Way(w) => Ok(
                    ContextView {
                        state: StateView::Way(WayView { tags: w.tags.insert(key, value), ..w }),
                        ..c
                    },
                ),
                StateView::Relation(r) => Ok(
                    ContextView {
                        state: StateView::Relation(
                            RelationView { tags: r.tags.insert(key, value), ..r },
                        ),
                        ..c
                    },
                ),
            },
        },
    }
}

/// What the opening of an element does.
pub open spec fn after_start(c: ContextView, el: Element) -> std::result::Result<
    ContextView,
    ErrorKind,
> {
    let name = el.name@;
    if name == "node".spec_bytes() {
        if c.state is Top {
            match node_of_element(el) {
                Ok(n) => Ok(ContextView { state: StateView::Node(n), ..c }),
                Err(k) => Err(k),
            }
        } else {
            Err(ErrorKind::Structure)
        }
    } else if name == "way".spec_bytes() {
        if c.state is Top {
            match attr_id(el, "id".spec_bytes()) {
                Ok(id) => Ok(
                    ContextView {
                        state: StateView::Way(
                            WayView { id, nodes: Seq::empty(), tags: Map::empty() },
                        ),
                        ..c
                    },
                ),
                Err(k) => Err(k),
            }
        } else {
            Err(ErrorKind::Structure)
        }
    } else if name == "relation".spec_bytes() {
        if c.state is Top {
            match attr_id(el, "id".spec_bytes()) {
                Ok(id) => Ok(
                    ContextView {
                        state: StateView::Relation(
                            RelationView { id, ways: Seq::empty(), tags: Map::empty() },
                        ),
                        ..c
                    },
                ),
                Err(k) => Err(k),
            }
        } else {
            Err(ErrorKind::Structure)
        }
    } else if name == "nd".spec_bytes() {
        match c.state {
            StateView::Way(w) => after_nd(c, w, el),
            _ => Err(ErrorKind::Structure),
        }
    } else if name == "member".spec_bytes() {
        match c.state {
            StateView::Relation(r) => after_member(c, r, el),
            _ => Err(ErrorKind::Structure),
        }
    } else if name == "tag".spec_bytes() {
        after_tag(c, el)
    } else {
        Ok(c)
    }
}

/// What the closing of an element does: the entity being read is finished
/// and put under its identifier, in place of what was there. A way without
/// nodes and a relation without ways are refused.
pub open spec fn after_end(c: ContextView, name: Seq<u8>) -> std::result::Result<
    ContextView,
    ErrorKind,
> {
    if name == "node".spec_bytes() {
        match c.state {
            StateView::Node(n) => Ok(
                ContextView { state: StateView::Top, nodes: c.nodes.insert(n.id, n), ..c },
            ),
            _ => Err(ErrorKind::Structure),
        }
    } else if name == "way".spec_bytes() {
        match c.state {
            StateView::Way(w) => if w.nodes.len() == 0 {
                Err(ErrorKind::Geometry)
            } else {
                Ok(ContextView { state: StateView::Top, ways: c.ways.insert(w.id, w), ..c })
            },
            _ => Err(ErrorKind::Structure),
        }
    } else if name == "relation".spec_bytes() {
        match c.state {
            StateView::Relation(r) => if r.ways.len() == 0 {
                Err(ErrorKind::Geometry)
            } else {
                Ok(
                    ContextView {
                        state: StateView::Top,
                        relations: c.relations.insert(r.id, r),
                        ..c
                    },
                )
            },
            _ => Err(ErrorKind::Structure),
        }
    } else {
        Ok(c)
    }
}

/// What an event does to the context. An element that opens and closes at
/// once does what its opening does and then what its closing does. Text and
/// events of other kinds are refused.
pub open spec fn after_event(c: ContextView, event: XmlEvent) -> std::result::Result<
    ContextView,
    ErrorKind,
> {
    match event {
        XmlEvent::Start(el) => after_start(c, el),
        XmlEvent::End(name) => after_end(c, name@),
        XmlEvent::Empty(el) => match after_start(c, el) {
            Ok(opened) => after_end(opened, el.name@),
            Err(k) => Err(k),
        },
        XmlEvent::Text => Err(ErrorKind::Structure),
        XmlEvent::Decl => Ok(c),
        XmlEvent::Eof => Ok(c),
        XmlEvent::Other => Err(ErrorKind::Structure),
    }
}

/// What a run of events does to the context: each event in turn, up to the
/// end of the document or the first event that fails.
pub open spec fn after_events(c: ContextView, events: Seq<XmlEvent>) -> std::result::Result<
    ContextView,
    ErrorKind,
>
    decreases events.len(),
{
    if events.len() == 0 || events[0] is Eof {
        Ok(c)
    } else {
        match after_event(c, events[0]) {
            Ok(next) => after_events(next, events.subrange(1, events.len() as int)),
            Err(k) => Err(k),
        }
    }
}

/// A result holds the context, or fails in the way, that was to be expected.
pub open spec fn agrees(
    r: Result<ParserContext>,
    expected: std::result::Result<ContextView, ErrorKind>,
) -> bool {
    match expected {
        Ok(c) => r is Ok && r->Ok_0@ == c,
        Err(k) => r is Err && r->Err_0.kind == k,
    }
}

impl ParserContext {
    /// The context before anything is read.
    pub fn new() -> (c: ParserContext)
        ensures
            c@ == initial_context(),
    {
        ParserContext {
            state: ParserState::Top,
            nodes: IdTable::new(),
            ways: IdTable::new(),
            relations: IdTable::new(),
            unresolved: Vec::new(),
        }
    }

    /// Handles a `nd` element inside the way `w`, which takes the place of
    /// the state.
    fn nd_in(self, w: Way, el: &Element) -> (r: Result<ParserContext>)
        ensures
            agrees(r, after_nd(ContextView { state: StateView::Way(w@), ..self@ }, w@, *el)),
    {
        let id = match parse_attr(el, "ref".as_bytes()) {
            Ok(id) => id,
            Err(e) => {
                return Err(e);
            },
        };
        let ParserContext { state, nodes, ways, relations, unresolved } = self;
        match nodes.get(id) {
            Some(node) => {
                let copy = node.clone();
                let Way { id: way_id, nodes: mut way_nodes, tags } = w;
                way_nodes.push(copy);
                assert(node_views(way_nodes@) =~= w@.nodes.push(copy@));
                Ok(
                    ParserContext {
                        state: ParserState::Way(Way { id: way_id, nodes: way_nodes, tags }),
                        nodes,
                        ways,
                        relations,
                        unresolved,
                    },
                )
            },
            None => {
                let mut unresolved = unresolved;
                unresolved.push(id);
                Ok(ParserContext { state: ParserState::Way(w), nodes, ways, relations, unresolved })
            },
        }
    }

    /// Handles a `member` element inside the relation `rel`, which takes the
    /// place of the state.
    fn member_in(self, rel: Relation, el: &Element) -> (r: Result<ParserContext>)
        ensures
            agrees(
                r,
                after_member(ContextView { state: StateView::Relation(rel@), ..self@ }, rel@, *el),
            ),
    {
        let is_way = match get_attr(el, "type".as_bytes()) {
            Ok(t) => bytes_eq(t.as_slice(), "way".as_bytes()),
            Err(e) => {
                return Err(e);
            },
        };
        let ParserContext { state, nodes, ways, relations, unresolved } = self;
        if !is_way {
            return Ok(
                ParserContext { state: ParserState::Relation(rel), nodes, ways, relations, unresolved },
            );
        }
        let id = match parse_attr(el, "ref".as_bytes()) {
            Ok(id) => id,
            Err(e) => {
                return Err(e);
            },
        };
        match ways.get(id) {
            Some(way) => {
                let copy = way.clone();
                let Relation { id: rel_id, ways: mut rel_ways, tags } = rel;
                rel_ways.push(copy);
                assert(way_views(rel_ways@) =~= rel@.ways.push(copy@));
                Ok(
                    ParserContext {
                        state: ParserState::Relation(Relation { id: rel_id, ways: rel_ways, tags }),
                        nodes,
                        ways,
                        relations,
                        unresolved,
                    },
                )
            },
            None => Err(Error::new(ErrorKind::Reference, "a relation names a way that was not read")),
        }
    }

    /// Handles a `tag` element.
    fn tag(self, el: &Element) -> (r: Result<ParserContext>)
        ensures
            agrees(r, after_tag(self@, *el)),
    {
        let key = match get_attr(el, "k".as_bytes()) {
            Ok(k) => copy_bytes(k.as_slice()),
            Err(e) => {
                return Err(e);
            },
        };
        let value = match get_attr(el, "v".as_bytes()) {
            Ok(v) => copy_bytes(v.as_slice()),
            Err(e) => {
                return Err(e);
            },
        };
        let ParserContext { state, nodes, ways, relations, unresolved } = self;
        let state = match state {
            ParserState::Top => {
                return Err(Error::new(ErrorKind::Structure, "a tag outside any entity"));
            },
            ParserState::Node(n) => {
                let Node { id, lon, lat, mut tags } = n;
                tags.insert(key, value);
                ParserState::Node(Node { id, lon, lat, tags })
            },
            ParserState::Way(w) => {
                let Way { id, nodes: way_nodes, mut tags } = w;
                tags.insert(key, value);
                ParserState::Way(Way { id, nodes: way_nodes, tags })
            },
            ParserState::Relation(rel) => {
                let Relation { id, ways: rel_ways, mut tags } = rel;
                tags.insert(key, value);
                ParserState::Relation(Relation { id, ways: rel_ways, tags })
            },
        };
        Ok(ParserContext { state, nodes, ways, relations, unresolved })
    }

    /// Handles the opening of an element.
    pub fn start(self, el: &Element) -> (r: Result<ParserContext>)
        ensures
            agrees(r, after_start(self@, *el)),
    {
        let name = el.name.as_slice();
        if bytes_eq(name, "node".as_bytes()) {
            let ParserContext { state, nodes, ways, relations, unresolved } = self;
            match state {
                ParserState::Top => match parse_node(el) {
                    Ok(n) => Ok(
                        ParserContext { state: ParserState::Node(n), nodes, ways, relations, unresolved },
                    ),
                    Err(e) => Err(e),
                },
                _ => Err(Error::new(ErrorKind::Structure, "a node inside another entity")),
            }
        } else if bytes_eq(name, "way".as_bytes()) {
            let ParserContext { state, nodes, ways, relations, unresolved } = self;
            match state {
                ParserState::Top => match parse_attr(el, "id".as_bytes()) {
                    Ok(id) => {
                        let w = Way { id, nodes: Vec::new(), tags: TagSet::new() };
                        assert(node_views(w.nodes@) =~= Seq::<NodeView>::empty());
                        Ok(ParserContext { state: ParserState::Way(w), nodes, ways, relations, unresolved })
                    },
                    Err(e) => Err(e),
                },
                _ => Err(Error::new(ErrorKind::Structure, "a way inside another entity")),
            }
        } else if bytes_eq(name, "relation".as_bytes()) {
            let ParserContext { state, nodes, ways, relations, unresolved } = self;
            match state {
                ParserState::Top => match parse_attr(el, "id".as_bytes()) {
                    Ok(id) => {
                        let rel = Relation { id, ways: Vec::new(), tags: TagSet::new() };
                        assert(way_views(rel.ways@) =~= Seq::<WayView>::empty());
                        Ok(
                            ParserContext {
                                state: ParserState::Relation(rel),
                                nodes,
                                ways,
                                relations,
                                unresolved,
                            },
                        )
                    },
                    Err(e) => Err(e),
                },
                _ => Err(Error::new(ErrorKind::Structure, "a relation inside another entity")),
            }
        } else if bytes_eq(name, "nd".as_bytes()) {
            let ParserContext { state, nodes, ways, relations, unresolved } = self;
            match state {
                ParserState::Way(w) => {
                    let c = ParserContext {
                        state: ParserState::Top,
                        nodes,
                        ways,
                        relations,
                        unresolved,
                    };
                    c.nd_in(w, el)
                },
                _ => Err(Error::new(ErrorKind::Structure, "a node reference outside a way")),
            }
        } else if bytes_eq(name, "member".as_bytes()) {
            let ParserContext { state, nodes, ways, relations, unresolved } = self;
            match state {
                ParserState::Relation(rel) => {
                    let c = ParserContext {
                        state: ParserState::Top,
                        nodes,
                        ways,
                        relations,
                        unresolved,
                    };
                    c.member_in(rel, el)
                },
                _ => Err(Error::new(ErrorKind::Structure, "a member outside a relation")),
            }
        } else if bytes_eq(name, "tag".as_bytes()) {
            self.tag(el)
        } else {
            Ok(self)
        }
    }
}

impl ParserContext {
    /// Handles the closing of the element `name`.
    pub fn end(self, name: &[u8]) -> (r: Result<ParserContext>)
        ensures
            agrees(r, after_end(self@, name@)),
    {
        if bytes_eq(name, "node".as_bytes()) {
            let ParserContext { state, nodes, ways, relations, unresolved } = self;
            match state {
                ParserState::Node(n) => {
                    let id = n.id;
                    Ok(
                        ParserContext {
                            state: ParserState::Top,
                            nodes: nodes.insert(id, n),
                            ways,
                            relations,
                            unresolved,
                        },
                    )
                },
                _ => Err(Error::new(ErrorKind::Structure, "a node closes that was not open")),
            }
        } else if bytes_eq(name, "way".as_bytes()) {
            let ParserContext { state, nodes, ways, relations, unresolved } = self;
            match state {
                ParserState::Way(w) => {
                    if w.nodes.len() == 0 {
                        return Err(Error::new(ErrorKind::Geometry, "a way without nodes"));
                    }
                    let id = w.id;
                    Ok(
                        ParserContext {
                            state: ParserState::Top,
                            nodes,
                            ways: ways.insert(id, w),
                            relations,
                            unresolved,
                        },
                    )
                },
                _ => Err(Error::new(ErrorKind::Structure, "a way closes that was not open")),
            }
        } else if bytes_eq(name, "relation".as_bytes()) {
            let ParserContext { state, nodes, ways, relations, unresolved } = self;
            match state {
                ParserState::Relation(rel) => {
                    if rel.ways.len() == 0 {
                        return Err(Error::new(ErrorKind::Geometry, "a relation without ways"));
                    }
                    let id = rel.id;
                    Ok(
                        ParserContext {
                            state: ParserState::Top,
                            nodes,
                            ways,
                            relations: relations.insert(id, rel),
                            unresolved,
                        },
                    )
                },
                _ => Err(Error::new(ErrorKind::Structure, "a relation closes that was not open")),
            }
        } else {
            Ok(self)
        }
    }

    /// Takes one event: the context after it, or the failure that ends the
    /// reading.
    pub fn step(self, event: &XmlEvent) -> (r: Result<ParserContext>)
        ensures
            agrees(r, after_event(self@, *event)),
    {
        match event {
            XmlEvent::Start(el) => self.start(el),
            XmlEvent::End(name) => self.end(name.as_slice()),
            XmlEvent::Empty(el) => match self.start(el) {
                Ok(opened) => opened.end(el.name.as_slice()),
                Err(e) => Err(e),
            },
            XmlEvent::Text => Err(Error::new(ErrorKind::Structure, "text between elements")),
            XmlEvent::Decl => Ok(self),
            XmlEvent::Eof => Ok(self),
            XmlEvent::Other => Err(Error::new(ErrorKind::Structure, "unexpected event")),
        }
    }
}

/// What the reading gives: the entities of each kind under their
/// identifiers, and the identifiers of nodes that ways named in vain.
#[derive(Debug)]
pub struct Output {
    pub nodes: IdTable<Node>,
    pub ways: IdTable<Way>,
    pub relations: IdTable<Relation>,
    pub unresolved: Vec<u64>,
}

/// The stage that reads the raw entities.
#[derive(Debug)]
pub struct ParseOsmEtl {
    data_path: String,
}

impl ParseOsmEtl {
    /// The stage for the document at `data_path`.
    pub fn new(data_path: String) -> (etl: ParseOsmEtl)
        ensures
            etl.data_path() == data_path,
    {
        ParseOsmEtl { data_path }
    }

    /// Where the document is.
    pub closed spec fn data_path(&self) -> String {
        self.data_path
    }

    /// Where the document is.
    pub fn input_path(&self) -> (path: &String)
        ensures
            *path == self.data_path(),
    {
        &self.data_path
    }

    /// The name of the stage.
    pub fn etl_name(&self) -> (name: &'static str)
        ensures
            name@ == "parse_osm"@,
    {
        "parse_osm"
    }

    /// The name of the file that holds what the stage gives.
    pub fn output_file_name(&self) -> (name: &'static str)
        ensures
            name@ == "osm_elements.rkyv"@,
    {
        "osm_elements.rkyv"
    }

    /// Reads the entities from the events of a document, in one pass: each
    /// event in turn, up to the end of the document or the first event that
    /// fails. An entity that is still open at the end is left out.
    pub fn transform(&self, events: &Vec<XmlEvent>) -> (r: Result<Output>)
        ensures
            match after_events(initial_context(), events@) {
                Ok(c) => {
                    &&& r is Ok
                    &&& r->Ok_0.nodes@ == c.nodes
                    &&& r->Ok_0.ways@ == c.ways
                    &&& r->Ok_0.relations@ == c.relations
                    &&& r->Ok_0.unresolved@ == c.unresolved
                },
                Err(k) => r is Err && r->Err_0.kind == k,
            },
    {
        let n = events.len();
        let mut context = ParserContext::new();
        let mut i: usize = 0;
        assert(events@.subrange(0, n as int) =~= events@);
        while i < n
            invariant
                n == events@.len(),
                i <= n,
                after_events(context@, events@.subrange(i as int, n as int)) == after_events(
                    initial_context(),
                    events@,
                ),
            decreases n - i,
        {
            let ghost rest = events@.subrange(i as int, n as int);
            assert(rest[0] == events@[i as int]);
            assert(rest.subrange(1, rest.len() as int) =~= events@.subrange(i + 1, n as int));
            if let XmlEvent::Eof = &events[i] {
                let ParserContext { state, nodes, ways, relations, unresolved } = context;
                return Ok(Output { nodes, ways, relations, unresolved });
            }
            match context.step(&events[i]) {
                Ok(next) => {
                    context = next;
                },
                Err(e) => {
                    return Err(e);
                },
            }
            i += 1;
        }
        let ParserContext { state, nodes, ways, relations, unresolved } = context;
        Ok(Output { nodes, ways, relations, unresolved })
    }
}

/// The names of the elements differ from one another.
pub proof fn lemma_names_differ()
    ensures
        "nd".spec_bytes() != "node".spec_bytes(),
        "nd".spec_bytes() != "way".spec_bytes(),
        "nd".spec_bytes() != "relation".spec_bytes(),
        "member".spec_bytes() != "node".spec_bytes(),
        "member".spec_bytes() != "way".spec_bytes(),
        "member".spec_bytes() != "relation".spec_bytes(),
        "member".spec_bytes() != "nd".spec_bytes(),
        "node".spec_bytes() != "way".spec_bytes(),
        "node".spec_bytes() != "relation".spec_bytes(),
        "way".spec_bytes() != "relation".spec_bytes(),
        "tag".spec_bytes() != "node".spec_bytes(),
        "tag".spec_bytes() != "way".spec_bytes(),
        "tag".spec_bytes() != "relation".spec_bytes(),
        "tag".spec_bytes() != "nd".spec_bytes(),
        "tag".spec_bytes() != "member".spec_bytes(),
{
    reveal_strlit("tag");
    vstd::string::is_ascii_spec_bytes("tag");
    assert("tag".spec_bytes().len() == 3);
    assert("tag".spec_bytes()[0] == 116u8);
    reveal_strlit("nd");
    reveal_strlit("node");
    reveal_strlit("way");
    reveal_strlit("relation");
    reveal_strlit("member");
    vstd::string::is_ascii_spec_bytes("nd");
    vstd::string::is_ascii_spec_bytes("node");
    vstd::string::is_ascii_spec_bytes("way");
    vstd::string::is_ascii_spec_bytes("relation");
    vstd::string::is_ascii_spec_bytes("member");
    assert("nd".spec_bytes().len() == 2);
    assert("node".spec_bytes().len() == 4);
    assert("way".spec_bytes().len() == 3);
    assert("way".spec_bytes()[0] == 119u8);
    assert("relation".spec_bytes().len() == 8);
    assert("member".spec_bytes().len() == 6);
}

/// The node that an event names for the way being read: the `ref` of a `nd`
/// element.
pub open spec fn nd_ref(event: XmlEvent) -> Option<u64> {
    match event {
        XmlEvent::Start(el) | XmlEvent::Empty(el) => if el.name@ == "nd".spec_bytes() {
            match attr_id(el, "ref".spec_bytes()) {
                Ok(id) => Some(id),
                Err(_) => None,
            }
        } else {
            None
        },
        _ => None,
    }
}

/// The tag that an event sets: the `k` and the `v` of a `tag` element.
pub open spec fn tag_set(event: XmlEvent) -> Option<(Seq<u8>, Seq<u8>)> {
    match event {
        XmlEvent::Start(el) | XmlEvent::Empty(el) => if el.name@ == "tag".spec_bytes() {
            match (attr_value(el, "k".spec_bytes()), attr_value(el, "v".spec_bytes())) {
                (Ok(k), Ok(v)) => Some((k, v)),
                _ => None,
            }
        } else {
            None
        },
        _ => None,
    }
}

/// The events are those of the inside of a way in which every reference
/// resolves: each names a node that has been read, or sets a tag.
pub open spec fn way_body(nodes: Map<u64, NodeView>, events: Seq<XmlEvent>) -> bool {
    forall|i: int|
        0 <= i < events.len() ==> (nd_ref(#[trigger] events[i]) is Some && nodes.contains_key(
            nd_ref(events[i])->Some_0,
        )) || tag_set(events[i]) is Some
}

/// The `ref` values of the events that name a node, in the order of the
/// events.
pub open spec fn body_refs(events: Seq<XmlEvent>) -> Seq<u64>
    decreases events.len(),
{
    if events.len() == 0 {
        Seq::empty()
    } else {
        (match nd_ref(events[0]) {
            Some(id) => seq![id],
            None => Seq::empty(),
        }) + body_refs(events.subrange(1, events.len() as int))
    }
}

/// The tags after the events that set a tag, each in turn.
pub open spec fn body_tags(tags: Map<Seq<u8>, Seq<u8>>, events: Seq<XmlEvent>) -> Map<
    Seq<u8>,
    Seq<u8>,
>
    decreases events.len(),
{
    if events.len() == 0 {
        tags
    } else {
        body_tags(
            match tag_set(events[0]) {
                Some((k, v)) => tags.insert(k, v),
                None => tags,
            },
            events.subrange(1, events.len() as int),
        )
    }
}

/// The nodes of the given identifiers, in that order.
pub open spec fn nodes_of(nodes: Map<u64, NodeView>, refs: Seq<u64>) -> Seq<NodeView> {
    Seq::new(refs.len(), |i: int| nodes[refs[i]])
}

/// Every entity that has been finished stands under its own identifier.
pub open spec fn well_keyed(c: ContextView) -> bool {
    &&& forall|id: u64| c.nodes.contains_key(id) ==> (#[trigger] c.nodes[id]).id == id
    &&& forall|id: u64| c.ways.contains_key(id) ==> (#[trigger] c.ways[id]).id == id
    &&& forall|id: u64| c.relations.contains_key(id) ==> (#[trigger] c.relations[id]).id == id
}

/// An event leaves every finished entity under its own identifier.
pub proof fn lemma_event_keeps_keys(c: ContextView, event: XmlEvent)
    requires
        well_keyed(c),
        after_event(c, event) is Ok,
    ensures
        well_keyed(after_event(c, event)->Ok_0),
{
    match event {
        XmlEvent::Empty(el) => {
            let opened = after_start(c, el)->Ok_0;
            assert(well_keyed(opened));
        },
        _ => {},
    }
}

/// A run of events leaves every finished entity under its own identifier.
pub proof fn lemma_events_keep_keys(c: ContextView, events: Seq<XmlEvent>)
    requires
        well_keyed(c),
        after_events(c, events) is Ok,
    ensures
        well_keyed(after_events(c, events)->Ok_0),
    decreases events.len(),
{
    if !(events.len() == 0 || events[0] is Eof) {
        lemma_event_keeps_keys(c, events[0]);
        lemma_events_keep_keys(
            after_event(c, events[0])->Ok_0,
            events.subrange(1, events.len() as int),
        );
    }
}

/// A way keeps the order in which its nodes are named: where every `nd`
/// inside it names a node that has been read, the way gets a copy of each,
/// in the order of the `ref` values, none left out and none twice over,
/// whatever tags are set in between.
pub proof fn lemma_way_keeps_order(c: ContextView, w: WayView, events: Seq<XmlEvent>)
    requires
        c.state == StateView::Way(w),
        way_body(c.nodes, events),
    ensures
        after_events(c, events) == Ok::<ContextView, ErrorKind>(
            ContextView {
                state: StateView::Way(
                    WayView {
                        id: w.id,
                        nodes: w.nodes + nodes_of(c.nodes, body_refs(events)),
                        tags: body_tags(w.tags, events),
                    },
                ),
                ..c
            },
        ),
    decreases events.len(),
{
    lemma_names_differ();
    if events.len() == 0 {
        assert(w.nodes + nodes_of(c.nodes, body_refs(events)) =~= w.nodes);
    } else {
        let first = events[0];
        let rest = events.subrange(1, events.len() as int);
        assert(!(first is Eof));
        let longer = match nd_ref(first) {
            Some(id) => WayView { nodes: w.nodes.push(c.nodes[id]), ..w },
            None => WayView { tags: w.tags.insert(tag_set(first)->Some_0.0, tag_set(first)->Some_0.1), ..w },
        };
        let next = ContextView { state: StateView::Way(longer), ..c };
        assert(after_event(c, first) == Ok::<ContextView, ErrorKind>(next));
        assert forall|i: int| 0 <= i < rest.len() implies (nd_ref(#[trigger] rest[i]) is Some
            && next.nodes.contains_key(nd_ref(rest[i])->Some_0)) || tag_set(rest[i]) is Some by {
            assert(rest[i] == events[i + 1]);
        }
        lemma_way_keeps_order(next, longer, rest);
        assert(longer.nodes + nodes_of(c.nodes, body_refs(rest)) =~= w.nodes + nodes_of(
            c.nodes,
            body_refs(events),
        ));
    }
}

/// A whole way, from its opening to its closing, with at least one `nd`
/// and every `nd` naming a node that has been read, is stored under its
/// identifier with copies of exactly those nodes, in the order of the `ref`
/// values; where every node stands under its own identifier, the identifiers
/// of the way's nodes are the `ref` values.
pub proof fn lemma_way_is_stored_in_order(
    c: ContextView,
    opening: Element,
    id: u64,
    body: Seq<XmlEvent>,
    closing: Vec<u8>,
)
    requires
        c.state is Top,
        opening.name@ == "way".spec_bytes(),
        closing@ == "way".spec_bytes(),
        attr_id(opening, "id".spec_bytes()) == Ok::<u64, ErrorKind>(id),
        way_body(c.nodes, body),
        body_refs(body).len() > 0,
    ensures
        ({
            let events = seq![XmlEvent::Start(opening)] + body + seq![XmlEvent::End(closing)];
            let stored = WayView {
                id,
                nodes: nodes_of(c.nodes, body_refs(body)),
                tags: body_tags(Map::empty(), body),
            };
            &&& after_events(c, events) == Ok::<ContextView, ErrorKind>(
                ContextView { ways: c.ways.insert(id, stored), ..c },
            )
            &&& well_keyed(c) ==> forall|i: int|
                0 <= i < stored.nodes.len() ==> (#[trigger] stored.nodes[i]).id == body_refs(body)[i]
        }),
{
    lemma_names_differ();
    let closing = XmlEvent::End(closing);
    let events = seq![XmlEvent::Start(opening)] + body + seq![closing];
    let w = WayView { id, nodes: Seq::empty(), tags: Map::empty() };
    let opened = ContextView { state: StateView::Way(w), ..c };
    assert(after_event(c, events[0]) == Ok::<ContextView, ErrorKind>(opened));
    let rest = events.subrange(1, events.len() as int);
    assert(rest =~= body + seq![closing]);
    assert forall|k: int| 0 <= k < body.len() implies !((#[trigger] rest[k]) is Eof) by {
        assert(rest[k] == body[k]);
        assert(nd_ref(body[k]) is Some || tag_set(body[k]) is Some);
    }
    lemma_events_split(opened, rest, body.len() as int);
    assert(rest.subrange(0, body.len() as int) =~= body);
    assert(rest.subrange(body.len() as int, rest.len() as int) =~= seq![closing]);
    lemma_way_keeps_order(opened, w, body);
    let filled = WayView {
        id,
        nodes: w.nodes + nodes_of(c.nodes, body_refs(body)),
        tags: body_tags(w.tags, body),
    };
    assert(filled.nodes =~= nodes_of(c.nodes, body_refs(body)));
    let inside = ContextView { state: StateView::Way(filled), ..c };
    let last = seq![closing];
    assert(last.subrange(1, 1) =~= Seq::<XmlEvent>::empty());
    assert(after_events(inside, last) == after_event(inside, closing)) by {
        reveal_with_fuel(after_events, 3);
        match after_event(inside, closing) {
            Ok(done) => {
                assert(after_events(done, last.subrange(1, last.len() as int)) == Ok::<
                    ContextView,
                    ErrorKind,
                >(done));
            },
            Err(_) => {},
        }
    }
    if well_keyed(c) {
        lemma_body_refs_resolve(c.nodes, body);
    }
}

/// Every `ref` value of the inside of a way in which every reference
/// resolves is that of a node that has been read.
pub proof fn lemma_body_refs_resolve(nodes: Map<u64, NodeView>, events: Seq<XmlEvent>)
    requires
        way_body(nodes, events),
    ensures
        forall|i: int|
            0 <= i < body_refs(events).len() ==> nodes.contains_key(#[trigger] body_refs(events)[i]),
    decreases events.len(),
{
    lemma_names_differ();
    if events.len() > 0 {
        let rest = events.subrange(1, events.len() as int);
        assert forall|i: int| 0 <= i < rest.len() implies (nd_ref(#[trigger] rest[i]) is Some
            && nodes.contains_key(nd_ref(rest[i])->Some_0)) || tag_set(rest[i]) is Some by {
            assert(rest[i] == events[i + 1]);
        }
        lemma_body_refs_resolve(nodes, rest);
        assert(nd_ref(events[0]) is Some ==> nodes.contains_key(nd_ref(events[0])->Some_0));
        let head: Seq<u64> = match nd_ref(events[0]) {
            Some(id) => seq![id],
            None => Seq::empty(),
        };
        assert(body_refs(events) == head + body_refs(rest));
        assert forall|i: int| 0 <= i < body_refs(events).len() implies nodes.contains_key(
            #[trigger] body_refs(events)[i],
        ) by {
            if i >= head.len() {
                assert(body_refs(events)[i] == body_refs(rest)[i - head.len()]);
            }
        }
    }
}

/// A relation that names a way which has not been read ends the reading.
pub proof fn lemma_unresolved_member_fails(c: ContextView, r: RelationView, el: Element, id: u64)
    requires
        c.state == StateView::Relation(r),
        el.name@ == "member".spec_bytes(),
        attr_value(el, "type".spec_bytes()) == Ok::<Seq<u8>, ErrorKind>("way".spec_bytes()),
        attr_id(el, "ref".spec_bytes()) == Ok::<u64, ErrorKind>(id),
        !c.ways.contains_key(id),
    ensures
        after_event(c, XmlEvent::Start(el)) == Err::<ContextView, ErrorKind>(ErrorKind::Reference),
        after_event(c, XmlEvent::Empty(el)) == Err::<ContextView, ErrorKind>(ErrorKind::Reference),
{
    lemma_names_differ();
}

/// A node with an attribute other than `id`, `lat`, `lon` and `version`
/// ends the reading.
pub proof fn lemma_unknown_node_attribute_fails(c: ContextView, el: Element, i: int)
    requires
        el.name@ == "node".spec_bytes(),
        0 <= i < el.attributes@.len(),
        el.attributes@[i].key@ != "id".spec_bytes(),
        el.attributes@[i].key@ != "lat".spec_bytes(),
        el.attributes@[i].key@ != "lon".spec_bytes(),
        el.attributes@[i].key@ != "version".spec_bytes(),
    ensures
        after_event(c, XmlEvent::Start(el)) is Err,
        after_event(c, XmlEvent::Empty(el)) is Err,
{
    lemma_unknown_attribute_fails(el, i);
}

/// The first event that fails ends the reading with its failure: what a run
/// of events does is what its first part does and then, if that did not fail
/// or end the document, what the rest does.
pub proof fn lemma_events_split(c: ContextView, events: Seq<XmlEvent>, i: int)
    requires
        0 <= i <= events.len(),
        forall|k: int| 0 <= k < i ==> !((#[trigger] events[k]) is Eof),
    ensures
        after_events(c, events) == match after_events(c, events.subrange(0, i)) {
            Ok(middle) => after_events(middle, events.subrange(i, events.len() as int)),
            Err(k) => Err(k),
        },
    decreases i,
{
    let head = events.subrange(0, i);
    if i == 0 {
        assert(events.subrange(0, events.len() as int) =~= events);
    } else {
        assert(head[0] == events[0]);
        match after_event(c, events[0]) {
            Ok(next) => {
                let rest = events.subrange(1, events.len() as int);
                assert forall|k: int| 0 <= k < i - 1 implies !((#[trigger] rest[k]) is Eof) by {
                    assert(rest[k] == events[k + 1]);
                }
                lemma_events_split(next, rest, i - 1);
                assert(rest.subrange(0, i - 1) =~= head.subrange(1, head.len() as int));
                assert(rest.subrange(i - 1, rest.len() as int) =~= events.subrange(
                    i,
                    events.len() as int,
                ));
            },
            Err(_) => {},
        }
    }
}

/// Every way of a list has a node.
pub open spec fn ways_have_nodes(ways: Seq<WayView>) -> bool {
    forall|j: int| 0 <= j < ways.len() ==> (#[trigger] ways[j]).nodes.len() > 0
}

/// No entity is without parts: every way that has been finished has a node,
/// every relation that has been finished has a way, and every way of a
/// relation has a node.
pub open spec fn has_parts(c: ContextView) -> bool {
    &&& forall|id: u64| c.ways.contains_key(id) ==> (#[trigger] c.ways[id]).nodes.len() > 0
    &&& forall|id: u64|
        c.relations.contains_key(id) ==> (#[trigger] c.relations[id]).ways.len() > 0
            && ways_have_nodes(c.relations[id].ways)
    &&& c.state matches StateView::Relation(r) ==> ways_have_nodes(r.ways)
}

/// An event leaves no entity without parts.
pub proof fn lemma_event_keeps_parts(c: ContextView, event: XmlEvent)
    requires
        has_parts(c),
        after_event(c, event) is Ok,
    ensures
        has_parts(after_event(c, event)->Ok_0),
{
    match event {
        XmlEvent::Empty(el) => {
            let opened = after_start(c, el)->Ok_0;
            assert(has_parts(opened));
        },
        _ => {},
    }
}

/// A run of events leaves no entity without parts.
pub proof fn lemma_events_keep_parts(c: ContextView, events: Seq<XmlEvent>)
    requires
        has_parts(c),
        after_events(c, events) is Ok,
    ensures
        has_parts(after_events(c, events)->Ok_0),
    decreases events.len(),
{
    if !(events.len() == 0 || events[0] is Eof) {
        lemma_event_keeps_parts(c, events[0]);
        lemma_events_keep_parts(
            after_event(c, events[0])->Ok_0,
            events.subrange(1, events.len() as int),
        );
    }
}

/// What is read from a document is sound: every entity stands under its
/// own identifier, and none is without parts.
pub proof fn lemma_read_entities_are_sound(events: Seq<XmlEvent>)
    requires
        after_events(initial_context(), events) is Ok,
    ensures
        well_keyed(after_events(initial_context(), events)->Ok_0),
        has_parts(after_events(initial_context(), events)->Ok_0),
{
    lemma_events_keep_keys(initial_context(), events);
    lemma_events_keep_parts(initial_context(), events);
}

} // verus!
