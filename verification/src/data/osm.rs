//! Raw entities as they are read: nodes, ways and relations, each with its
//! tags, and the tables that hold them by identifier.

use vstd::prelude::*;
use crate::bytes::{bytes_eq, copy_bytes};

verus! {

/// The identifier of a node, a way or a relation.
pub type OsmId = u64;

/// The mapping that a list of key/value pairs stands for: where a key occurs
/// more than once, the last pair counts.
pub open spec fn tags_of(pairs: Seq<(Seq<u8>, Seq<u8>)>) -> Map<Seq<u8>, Seq<u8>>
    decreases pairs.len(),
{
    if pairs.len() == 0 {
        Map::empty()
    } else {
        tags_of(pairs.drop_last()).insert(pairs.last().0, pairs.last().1)
    }
}

/// The pairs of a list as pairs of byte strings.
pub open spec fn pair_views(pairs: Seq<(Vec<u8>, Vec<u8>)>) -> Seq<(Seq<u8>, Seq<u8>)> {
    Seq::new(pairs.len(), |i: int| (pairs[i].0@, pairs[i].1@))
}

/// The tags of an entity: a mapping from keys to values, both byte strings.
#[derive(Debug)]
pub struct TagSet {
    entries: Vec<(Vec<u8>, Vec<u8>)>,
}

impl View for TagSet {
    type V = Map<Seq<u8>, Seq<u8>>;

    closed spec fn view(&self) -> Map<Seq<u8>, Seq<u8>> {
        tags_of(self.pairs())
    }
}

impl TagSet {
    /// The pairs in the order in which they were inserted.
    pub closed spec fn pairs(&self) -> Seq<(Seq<u8>, Seq<u8>)> {
        Seq::new(self.entries@.len(), |i: int| (self.entries@[i].0@, self.entries@[i].1@))
    }

    /// No tags.
    pub fn new() -> (tags: TagSet)
        ensures
            tags@ == Map::<Seq<u8>, Seq<u8>>::empty(),
    {
        let tags = TagSet { entries: Vec::new() };
        assert(tags.pairs() =~= Seq::empty());
        tags
    }

    /// Sets the value of `key` to `value`, whether or not the key had one.
    pub fn insert(&mut self, key: Vec<u8>, value: Vec<u8>)
        ensures
            final(self)@ == old(self)@.insert(key@, value@),
    {
        let ghost before = self.pairs();
        self.entries.push((key, value));
        assert(self.pairs().drop_last() =~= before);
    }

    /// The value of `key`, if it has one.
    pub fn get(&self, key: &[u8]) -> (value: Option<&Vec<u8>>)
        ensures
            match value {
                Some(v) => self@.contains_key(key@) && self@[key@] == v@,
                None => !self@.contains_key(key@),
            },
    {
        let mut i: usize = self.entries.len();
        assert(self.pairs().subrange(0, i as int) =~= self.pairs());
        while i > 0
            invariant
                i <= self.entries@.len(),
                self@.contains_key(key@) <==> tags_of(self.pairs().subrange(0, i as int)).contains_key(
                    key@,
                ),
                self@.contains_key(key@) ==> self@[key@] == tags_of(
                    self.pairs().subrange(0, i as int),
                )[key@],
            decreases i,
        {
            let ghost prefix = self.pairs().subrange(0, i as int);
            assert(prefix.drop_last() =~= self.pairs().subrange(0, i - 1));
            i -= 1;
            if bytes_eq(self.entries[i].0.as_slice(), key) {
                return Some(&self.entries[i].1);
            }
        }
        assert(self.pairs().subrange(0, 0) =~= Seq::empty());
        None
    }

    /// Key/value pairs that stand for these tags: set one after another in
    /// the order given, they make these tags again.
    pub fn to_pairs(&self) -> (pairs: Vec<(Vec<u8>, Vec<u8>)>)
        ensures
            tags_of(pair_views(pairs@)) == self@,
    {
        let copy = self.clone();
        assert(pair_views(copy.entries@) =~= copy.pairs());
        copy.entries
    }

    /// Whether `key` has a value.
    pub fn contains_key(&self, key: &[u8]) -> (has: bool)
        ensures
            has == self@.contains_key(key@),
    {
        self.get(key).is_some()
    }
}

impl Clone for TagSet {
    fn clone(&self) -> (copy: TagSet)
        ensures
            copy@ == self@,
    {
        let n = self.entries.len();
        let mut entries: Vec<(Vec<u8>, Vec<u8>)> = Vec::new();
        let mut i: usize = 0;
        while i < n
            invariant
                n == self.entries@.len(),
                i <= n,
                entries@.len() == i,
                forall|k: int|
                    0 <= k < i ==> (#[trigger] entries@[k]).0@ == self.entries@[k].0@ && entries@[k].1@
                        == self.entries@[k].1@,
            decreases n - i,
        {
            let key = copy_bytes(self.entries[i].0.as_slice());
            let value = copy_bytes(self.entries[i].1.as_slice());
            entries.push((key, value));
            i += 1;
        }
        let copy = TagSet { entries };
        assert(copy.pairs() =~= self.pairs());
        copy
    }
}

/// Each identifier is smaller than the one after it.
pub open spec fn ascending(ids: Seq<u64>) -> bool {
    forall|a: int, b: int| 0 <= a < b < ids.len() ==> ids[a] < ids[b]
}

/// The position of `id` among `ids`, where it occurs.
pub open spec fn position(ids: Seq<u64>, id: u64) -> int {
    choose|i: int| 0 <= i < ids.len() && ids[i] == id
}

/// Entities of one kind, each under its identifier, kept in the order of
/// their identifiers.
#[derive(Debug)]
pub struct IdTable<T> {
    ids: Vec<u64>,
    items: Vec<T>,
}

impl<T: View> View for IdTable<T> {
    type V = Map<u64, T::V>;

    open spec fn view(&self) -> Map<u64, T::V> {
        Map::new(
            |id: u64| self.ids().contains(id),
            |id: u64| self.items()[position(self.ids(), id)]@,
        )
    }
}

impl<T> IdTable<T> {
    #[verifier::type_invariant]
    spec fn inv(self) -> bool {
        &&& self.ids@.len() == self.items@.len()
        &&& ascending(self.ids@)
    }

    /// The identifiers, smallest first.
    pub closed spec fn ids(&self) -> Seq<u64> {
        self.ids@
    }

    /// The entities, in the order of their identifiers.
    pub closed spec fn items(&self) -> Seq<T> {
        self.items@
    }
}

impl<T: View> IdTable<T> {

    /// An empty table.
    pub fn new() -> (table: IdTable<T>)
        ensures
            table.ids() == Seq::<u64>::empty(),
            table.items() == Seq::<T>::empty(),
            table@ == Map::<u64, T::V>::empty(),
    {
        let table = IdTable { ids: Vec::new(), items: Vec::new() };
        assert(table@ =~= Map::<u64, T::V>::empty());
        table
    }

    /// The number of entities. There is one for each identifier, and the
    /// identifiers ascend.
    pub fn len(&self) -> (n: usize)
        ensures
            n == self.ids().len(),
            n == self.items().len(),
            ascending(self.ids()),
    {
        proof {
            use_type_invariant(self);
        }
        self.ids.len()
    }

    /// The entity at position `i`, counted in the order of the identifiers.
    pub fn item(&self, i: usize) -> (item: &T)
        requires
            i < self.items().len(),
        ensures
            *item == self.items()[i as int],
    {
        &self.items[i]
    }

    /// The number of identifiers in the table that are smaller than `id`.
    fn rank(&self, id: u64) -> (r: usize)
        ensures
            r <= self.ids().len(),
            forall|k: int| 0 <= k < r ==> self.ids()[k] < id,
            forall|k: int| r <= k < self.ids().len() ==> self.ids()[k] >= id,
    {
        proof {
            use_type_invariant(self);
        }
        let mut lo: usize = 0;
        let mut hi: usize = self.ids.len();
        while lo < hi
            invariant
                lo <= hi <= self.ids@.len(),
                ascending(self.ids@),
                forall|k: int| 0 <= k < lo ==> self.ids@[k] < id,
                forall|k: int| hi <= k < self.ids@.len() ==> self.ids@[k] >= id,
            decreases hi - lo,
        {
            let mid = lo + (hi - lo) / 2;
            if self.ids[mid] < id {
                lo = mid + 1;
            } else {
                hi = mid;
            }
        }
        lo
    }

    /// The entity under `id`, if there is one.
    pub fn get(&self, id: u64) -> (found: Option<&T>)
        ensures
            match found {
                Some(item) => self@.contains_key(id) && self@[id] == item@,
                None => !self@.contains_key(id),
            },
    {
        proof {
            use_type_invariant(self);
        }
        let r = self.rank(id);
        if r < self.ids.len() && self.ids[r] == id {
            assert(self.ids()[r as int] == id);
            assert(position(self.ids(), id) == r);
            Some(&self.items[r])
        } else {
            None
        }
    }

    /// The table with `item` under `id`, in place of what was there.
    pub fn insert(self, id: u64, item: T) -> (table: IdTable<T>)
        ensures
            table@ == self@.insert(id, item@),
    {
        proof {
            use_type_invariant(&self);
        }
        let r = self.rank(id);
        let ghost old_ids = self.ids@;
        let ghost old_items = self.items@;
        let IdTable { mut ids, mut items } = self;
        if r < ids.len() && ids[r] == id {
            items.set(r, item);
            let table = IdTable { ids, items };
            proof {
                assert forall|k: u64| #[trigger] table.ids().contains(k) implies table.items()[position(
                    table.ids(),
                    k,
                )]@ == self@.insert(id, item@)[k] by {
                    let i = position(old_ids, k);
                    assert(old_ids[i] == k);
                }
                assert(table@ =~= self@.insert(id, item@));
            }
            table
        } else {
            ids.insert(r, id);
            items.insert(r, item);
            let table = IdTable { ids, items };
            proof {
                let new_ids = table.ids@;
                let new_items = table.items@;
                assert(new_ids[r as int] == id);
                assert forall|k: u64| new_ids.contains(k) <==> old_ids.contains(k) || k == id by {
                    if new_ids.contains(k) {
                        let i = choose|i: int| 0 <= i < new_ids.len() && new_ids[i] == k;
                        if i < r {
                            assert(old_ids[i] == k);
                        } else if i > r {
                            assert(old_ids[i - 1] == k);
                        }
                    }
                    if old_ids.contains(k) {
                        let i = choose|i: int| 0 <= i < old_ids.len() && old_ids[i] == k;
                        if i < r {
                            assert(new_ids[i] == k);
                        } else {
                            assert(new_ids[i + 1] == k);
                        }
                    }
                }
                assert forall|k: u64| #[trigger] new_ids.contains(k) implies new_items[position(
                    new_ids,
                    k,
                )]@ == self@.insert(id, item@)[k] by {
                    let i = position(new_ids, k);
                    assert(new_ids[i] == k);
                    if i < r {
                        assert(old_ids[i] == k);
                        assert(position(old_ids, k) == i);
                    } else if i > r {
                        assert(old_ids[i - 1] == k);
                        assert(position(old_ids, k) == i - 1);
                    }
                }
                assert(table@ =~= self@.insert(id, item@));
            }
            table
        }
    }
}

/// What a node is: its identifier, its position as the bit patterns of
/// latitude and longitude in degrees, and its tags.
pub struct NodeView {
    pub id: u64,
    pub lat: u64,
    pub lon: u64,
    pub tags: Map<Seq<u8>, Seq<u8>>,
}

/// A point of the map.
#[derive(Debug)]
pub struct Node {
    pub id: OsmId,
    pub lon: u64,
    pub lat: u64,
    pub tags: TagSet,
}

impl View for Node {
    type V = NodeView;

    open spec fn view(&self) -> NodeView {
        NodeView { id: self.id, lat: self.lat, lon: self.lon, tags: self.tags@ }
    }
}

impl Clone for Node {
    fn clone(&self) -> (copy: Node)
        ensures
            copy@ == self@,
    {
        Node { id: self.id, lon: self.lon, lat: self.lat, tags: self.tags.clone() }
    }
}

/// What a way is: its identifier, its nodes in path order, and its tags.
pub struct WayView {
    pub id: u64,
    pub nodes: Seq<NodeView>,
    pub tags: Map<Seq<u8>, Seq<u8>>,
}

/// A polyline: copies of its nodes in path order.
#[derive(Debug)]
pub struct Way {
    pub id: OsmId,
    pub nodes: Vec<Node>,
    pub tags: TagSet,
}

/// The nodes of a list as what they are.
pub open spec fn node_views(nodes: Seq<Node>) -> Seq<NodeView> {
    Seq::new(nodes.len(), |i: int| nodes[i]@)
}

impl View for Way {
    type V = WayView;

    open spec fn view(&self) -> WayView {
        WayView { id: self.id, nodes: node_views(self.nodes@), tags: self.tags@ }
    }
}

impl Clone for Way {
    fn clone(&self) -> (copy: Way)
        ensures
            copy@ == self@,
    {
        let n = self.nodes.len();
        let mut nodes: Vec<Node> = Vec::new();
        let mut i: usize = 0;
        while i < n
            invariant
                n == self.nodes@.len(),
                i <= n,
                nodes@.len() == i,
                forall|k: int| 0 <= k < i ==> (#[trigger] nodes@[k])@ == self.nodes@[k]@,
            decreases n - i,
        {
            nodes.push(self.nodes[i].clone());
            i += 1;
        }
        assert(node_views(nodes@) =~= node_views(self.nodes@));
        Way { id: self.id, nodes, tags: self.tags.clone() }
    }
}

/// What a relation is: its identifier, its ways in the order given, and its
/// tags.
pub struct RelationView {
    pub id: u64,
    pub ways: Seq<WayView>,
    pub tags: Map<Seq<u8>, Seq<u8>>,
}

/// A named group of ways: copies of them in the order given.
#[derive(Debug)]
pub struct Relation {
    pub id: OsmId,
    pub ways: Vec<Way>,
    pub tags: TagSet,
}

/// The ways of a list as what they are.
pub open spec fn way_views(ways: Seq<Way>) -> Seq<WayView> {
    Seq::new(ways.len(), |i: int| ways[i]@)
}

impl View for Relation {
    type V = RelationView;

    open spec fn view(&self) -> RelationView {
        RelationView { id: self.id, ways: way_views(self.ways@), tags: self.tags@ }
    }
}

impl Clone for Relation {
    fn clone(&self) -> (copy: Relation)
        ensures
            copy@ == self@,
    {
        let n = self.ways.len();
        let mut ways: Vec<Way> = Vec::new();
        let mut i: usize = 0;
        while i < n
            invariant
                n == self.ways@.len(),
                i <= n,
                ways@.len() == i,
                forall|k: int| 0 <= k < i ==> (#[trigger] ways@[k])@ == self.ways@[k]@,
            decreases n - i,
        {
            ways.push(self.ways[i].clone());
            i += 1;
        }
        assert(way_views(ways@) =~= way_views(self.ways@));
        Relation { id: self.id, ways, tags: self.tags.clone() }
    }
}

/// The map as read: nodes, ways and relations, each kind under its
/// identifiers.
#[derive(Debug)]
pub struct OsmMapData {
    pub nodes: IdTable<Node>,
    pub ways: IdTable<Way>,
    pub relations: IdTable<Relation>,
}

/// The order in which two different keys are set does not matter.
pub proof fn lemma_insert_order(tags: Map<Seq<u8>, Seq<u8>>, k1: Seq<u8>, v1: Seq<u8>, k2: Seq<u8>, v2: Seq<u8>)
    requires
        k1 != k2,
    ensures
        tags.insert(k1, v1).insert(k2, v2) == tags.insert(k2, v2).insert(k1, v1),
{
    assert(tags.insert(k1, v1).insert(k2, v2) =~= tags.insert(k2, v2).insert(k1, v1));
}

/// Of two values set for one key, the later one stays.
pub proof fn lemma_insert_overwrites(tags: Map<Seq<u8>, Seq<u8>>, k: Seq<u8>, v1: Seq<u8>, v2: Seq<u8>)
    ensures
        tags.insert(k, v1).insert(k, v2) == tags.insert(k, v2),
{
    assert(tags.insert(k, v1).insert(k, v2) =~= tags.insert(k, v2));
}

} // verus!
