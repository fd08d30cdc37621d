//! The element model of a primitive block: nodes, ways, relations,
//! changesets, their metadata, and the block that holds them.

use vstd::prelude::*;
use crate::blocks::string_table::StringTable;

verus! {

/// Metadata of one element.
#[derive(Debug, Clone, Copy, PartialEq, Eq)]
pub struct Info {
    pub version: i32,
    pub timestamp: i64,
    pub changeset: i64,
    pub uid: i32,
    pub user_sid: u32,
    pub visible: bool,
}

impl Info {
    fn default_visible() -> (r: bool)
        ensures
            r,
    {
        true
    }
}

impl Default for Info {
    fn default() -> (r: Info)
        ensures
            r == (Info { version: 0, timestamp: 0, changeset: 0, uid: 0, user_sid: 0, visible: true }),
    {
        Info {
            version: 0,
            timestamp: 0,
            changeset: 0,
            uid: 0,
            user_sid: 0,
            visible: Info::default_visible(),
        }
    }
}

/// Column-wise metadata of dense nodes; every column but `visible` is
/// delta-encoded.
#[derive(Debug, Clone, PartialEq, Eq, Default)]
pub struct DenseInfo {
    pub version: Vec<i32>,
    pub timestamp: Vec<i64>,
    pub changeset: Vec<i64>,
    pub uid: Vec<i32>,
    pub user_sid: Vec<i32>,
    pub visible: Vec<bool>,
}

/// Many nodes stored column-wise: `id`, `lat` and `lon` are delta-encoded,
/// and `keys_vals` holds each node's key/value string indices followed by a 0.
#[derive(Debug, Clone, PartialEq, Eq, Default)]
pub struct DenseNodes {
    pub id: Vec<i64>,
    pub denseinfo: Option<DenseInfo>,
    pub lat: Vec<i64>,
    pub lon: Vec<i64>,
    pub keys_vals: Vec<i32>,
}

/// A node: an id, tags as string-table indices, and a position in nanodegrees.
#[derive(Debug, Clone, PartialEq, Eq)]
pub struct Node {
    pub id: i64,
    pub keys: Vec<u32>,
    pub vals: Vec<u32>,
    pub info: Option<Info>,
    pub lat: i64,
    pub lon: i64,
}

impl Node {
    /// A node without tags or metadata.
    pub fn new(id: i64, lat: i64, lon: i64) -> (r: Node)
        ensures
            r.id == id,
            r.lat == lat,
            r.lon == lon,
            r.keys@.len() == 0,
            r.vals@.len() == 0,
            r.info.is_none(),
    {
        Node { id, keys: Vec::new(), vals: Vec::new(), info: None, lat, lon }
    }

    /// Appends the tag `key = value`.
    pub fn add_tag(&mut self, key: u32, value: u32)
        ensures
            final(self).keys@ == old(self).keys@.push(key),
            final(self).vals@ == old(self).vals@.push(value),
            final(self).id == old(self).id,
            final(self).lat == old(self).lat,
            final(self).lon == old(self).lon,
            final(self).info == old(self).info,
    {
        self.keys.push(key);
        self.vals.push(value);
    }

    /// Number of tags.
    pub fn tag_count(&self) -> (r: usize)
        ensures
            r == self.keys@.len(),
    {
        self.keys.len()
    }

    /// The tag at `index`, or `None` past the end of either column.
    pub fn get_tag(&self, index: usize) -> (r: Option<(u32, u32)>)
        ensures
            r == (if index < self.keys@.len() && index < self.vals@.len() {
                Some((self.keys@[index as int], self.vals@[index as int]))
            } else {
                None
            }),
    {
        if index < self.keys.len() && index < self.vals.len() {
            Some((self.keys[index], self.vals[index]))
        } else {
            None
        }
    }

    /// True when the node has at least one tag.
    pub fn has_tags(&self) -> (r: bool)
        ensures
            r == (self.keys@.len() > 0),
    {
        self.keys.len() > 0
    }

    /// Removes every tag.
    pub fn clear_tags(&mut self)
        ensures
            final(self).keys@.len() == 0,
            final(self).vals@.len() == 0,
            final(self).id == old(self).id,
            final(self).lat == old(self).lat,
            final(self).lon == old(self).lon,
            final(self).info == old(self).info,
    {
        self.keys.clear();
        self.vals.clear();
    }
}

/// A way: an id, tags, and its node ids, delta-encoded.
#[derive(Debug, Clone, PartialEq, Eq)]
pub struct Way {
    pub id: i64,
    pub keys: Vec<u32>,
    pub vals: Vec<u32>,
    pub info: Option<Info>,
    pub refs: Vec<i64>,
}

/// The kind of a relation member.
#[derive(Debug, Clone, Copy, PartialEq, Eq)]
pub enum MemberType {
    Node,
    Way,
    Relation,
}

/// A relation: an id, tags, and its members (role, id delta-encoded, kind).
#[derive(Debug, Clone, PartialEq, Eq)]
pub struct Relation {
    pub id: i64,
    pub keys: Vec<u32>,
    pub vals: Vec<u32>,
    pub info: Option<Info>,
    pub roles_sid: Vec<i32>,
    pub memids: Vec<i64>,
    pub types: Vec<MemberType>,
}

/// A changeset.
#[derive(Debug, Clone, PartialEq, Eq)]
pub struct ChangeSet {
    pub id: i64,
    pub keys: Vec<u32>,
    pub vals: Vec<u32>,
    pub info: Option<Info>,
}

/// One group of a primitive block; each non-empty slot is a substream.
#[derive(Debug, Clone, PartialEq, Eq, Default)]
pub struct PrimitiveGroup {
    pub nodes: Vec<Node>,
    pub dense: Option<DenseNodes>,
    pub ways: Vec<Way>,
    pub relations: Vec<Relation>,
    pub changesets: Vec<ChangeSet>,
}

/// The unit of decoding: a string table, groups of elements, and the
/// coordinate frame shared by every node of the block.
#[derive(Debug, Clone, PartialEq, Eq)]
pub struct PrimitiveBlock {
    pub stringtable: StringTable,
    pub primitivegroup: Vec<PrimitiveGroup>,
    /// Nanodegrees per stored coordinate unit.
    pub granularity: i32,
    /// Added to every stored latitude, in nanodegrees.
    pub lat_offset: i64,
    /// Added to every stored longitude, in nanodegrees.
    pub lon_offset: i64,
    /// Milliseconds per stored timestamp unit.
    pub date_granularity: i32,
}

impl PrimitiveBlock {
    pub const DEFAULT_GRANULARITY: i32 = 100;

    pub const DEFAULT_DATE_GRANULARITY: i32 = 1000;

    /// The granularity of a block that does not state one.
    pub fn default_granularity() -> (r: i32)
        ensures
            r == 100,
    {
        Self::DEFAULT_GRANULARITY
    }

    /// The date granularity of a block that does not state one.
    pub fn default_date_granularity() -> (r: i32)
        ensures
            r == 1000,
    {
        Self::DEFAULT_DATE_GRANULARITY
    }
}

impl Default for PrimitiveBlock {
    fn default() -> (r: PrimitiveBlock)
        ensures
            r.stringtable.wf(),
            r.stringtable.s@.len() == 1,
            r.primitivegroup@.len() == 0,
            r.granularity == 100,
            r.lat_offset == 0,
            r.lon_offset == 0,
            r.date_granularity == 1000,
    {
        PrimitiveBlock {
            stringtable: StringTable::new(),
            primitivegroup: Vec::new(),
            granularity: Self::default_granularity(),
            lat_offset: 0,
            lon_offset: 0,
            date_granularity: Self::default_date_granularity(),
        }
    }
}

} // verus!
