//! Reading a PrimitiveBlock from its protocol-buffer encoding: the string
//! table, the groups, and every element with its columns.

use vstd::prelude::*;
use crate::blocks::delta::ints;
use crate::blocks::decode::ints32;
use crate::io::blob::BlobError;
use crate::blocks::primitives::{
    ChangeSet, DenseInfo, DenseNodes, Info, MemberType, Node, PrimitiveBlock, PrimitiveGroup,
    Relation, Way,
};
use crate::blocks::string_table::StringTable;
use crate::io::frame::{utf8_str, utf8_string};
use crate::blocks::header_block::{HeaderBBox, HeaderBlock, OsmosisReplicationTimestamp, OsmosisSequenceNumber};
use crate::blocks::nano_degree::NanoDegree;
use vstd::utf8::{valid_utf8, decode_utf8};
use vstd::slice::slice_subrange;
use crate::io::wire::{
    WireValue, collect_spans, field_ints, fields_list, fields_within, find_last_varint,
    lemma_spans_within, last_varint, packed_spans, read_fields, read_packed, span_ints, spans_of,
    u64_ints,
};

verus! {

/// The signed value of a zigzag-coded varint.
pub open spec fn zigzag(v: int) -> int {
    if v % 2 == 0 {
        v / 2
    } else {
        -((v + 1) / 2)
    }
}

/// The two's-complement reading of a 64-bit varint.
pub open spec fn signed64(v: int) -> int {
    if v < 0x8000_0000_0000_0000 {
        v
    } else {
        v - 0x1_0000_0000_0000_0000
    }
}

/// Decodes a zigzag-coded 64-bit value.
pub fn unzigzag(v: u64) -> (r: i64)
    ensures
        r == zigzag(v as int),
{
    if v % 2 == 0 {
        (v / 2) as i64
    } else {
        -((v / 2) as i64) - 1
    }
}

/// Reads a 64-bit varint as a signed value.
pub fn to_signed64(v: u64) -> (r: i64)
    ensures
        r == signed64(v as int),
{
    if v < 0x8000_0000_0000_0000 {
        v as i64
    } else {
        ((v - 0x8000_0000_0000_0000) as i64) - 0x7fff_ffff_ffff_ffff - 1
    }
}

/// An `int32` field's value, or `None` when it leaves `i32`.
pub open spec fn int32_of(v: int) -> Option<int> {
    if i32::MIN <= signed64(v) <= i32::MAX {
        Some(signed64(v))
    } else {
        None
    }
}

/// A `sint32` field's value, or `None` when it leaves `i32`.
pub open spec fn sint32_of(v: int) -> Option<int> {
    if i32::MIN <= zigzag(v) <= i32::MAX {
        Some(zigzag(v))
    } else {
        None
    }
}

/// A `uint32` field's value, or `None` when it leaves `u32`.
pub open spec fn uint32_of(v: int) -> Option<int> {
    if v <= u32::MAX {
        Some(v)
    } else {
        None
    }
}

/// A column of `int32` values, or `None` when one leaves `i32`.
pub open spec fn int32_col(c: Seq<int>) -> Option<Seq<int>> {
    if forall|i: int| 0 <= i < c.len() ==> #[trigger] int32_of(c[i]) is Some {
        Some(Seq::new(c.len(), |i: int| signed64(c[i])))
    } else {
        None
    }
}

/// A column of `sint32` values, or `None` when one leaves `i32`.
pub open spec fn sint32_col(c: Seq<int>) -> Option<Seq<int>> {
    if forall|i: int| 0 <= i < c.len() ==> #[trigger] sint32_of(c[i]) is Some {
        Some(Seq::new(c.len(), |i: int| zigzag(c[i])))
    } else {
        None
    }
}

/// A column of zigzag-coded 64-bit values.
pub open spec fn sint64_col(c: Seq<int>) -> Seq<int> {
    Seq::new(c.len(), |i: int| zigzag(c[i]))
}

/// Decodes a column of zigzag-coded 64-bit values.
pub fn sint64_column(v: &Vec<u64>) -> (r: Vec<i64>)
    ensures
        ints(r@) == sint64_col(u64_ints(v@)),
{
    let mut out: Vec<i64> = Vec::new();
    let mut i: usize = 0;
    while i < v.len()
        invariant
            i <= v@.len(),
            out@.len() == i,
            forall|k: int| 0 <= k < i ==> #[trigger] out@[k] == zigzag(v@[k] as int),
        decreases v@.len() - i,
    {
        out.push(unzigzag(v[i]));
        i = i + 1;
    }
    assert(ints(out@) =~= sint64_col(u64_ints(v@)));
    out
}

/// Decodes a column of 32-bit values, zigzag-coded when `zig`; `None` when
/// one leaves `i32`.
pub fn i32_column(v: &Vec<u64>, zig: bool) -> (r: Option<Vec<i32>>)
    ensures
        ({
            let want = if zig { sint32_col(u64_ints(v@)) } else { int32_col(u64_ints(v@)) };
            &&& r is Some <==> want is Some
            &&& r matches Some(c) ==> ints32(c@) == want->Some_0
        }),
{
    let mut out: Vec<i32> = Vec::new();
    let mut i: usize = 0;
    while i < v.len()
        invariant
            i <= v@.len(),
            out@.len() == i,
            forall|k: int| 0 <= k < i ==> (if zig { sint32_of(#[trigger] u64_ints(v@)[k]) } else { int32_of(u64_ints(v@)[k]) }) is Some,
            forall|k: int| 0 <= k < i ==> #[trigger] out@[k] as int == (if zig { zigzag(v@[k] as int) } else { signed64(v@[k] as int) }),
        decreases v@.len() - i,
    {
        let w = if zig { unzigzag(v[i]) } else { to_signed64(v[i]) };
        assert(u64_ints(v@)[i as int] == v@[i as int] as int);
        if w < i32::MIN as i64 || w > i32::MAX as i64 {
            proof {
                if zig {
                    assert(sint32_of(u64_ints(v@)[i as int]) is None);
                } else {
                    assert(int32_of(u64_ints(v@)[i as int]) is None);
                }
            }
            return None;
        }
        out.push(w as i32);
        i = i + 1;
    }
    proof {
        if zig {
            assert(ints32(out@) =~= sint32_col(u64_ints(v@))->Some_0);
        } else {
            assert(ints32(out@) =~= int32_col(u64_ints(v@))->Some_0);
        }
    }
    Some(out)
}

/// Values of a `uint32` column, as integers.
pub open spec fn u32_ints(s: Seq<u32>) -> Seq<int> {
    s.map_values(|x: u32| x as int)
}

/// Decodes a column of `uint32` values; `None` when one leaves `u32`.
pub fn u32_column(v: &Vec<u64>) -> (r: Option<Vec<u32>>)
    ensures
        r is Some <==> forall|i: int| 0 <= i < v@.len() ==> #[trigger] v@[i] <= u32::MAX,
        r matches Some(c) ==> u32_ints(c@) == u64_ints(v@),
{
    let mut out: Vec<u32> = Vec::new();
    let mut i: usize = 0;
    while i < v.len()
        invariant
            i <= v@.len(),
            forall|k: int| 0 <= k < i ==> #[trigger] v@[k] <= u32::MAX,
            u32_ints(out@) == u64_ints(v@.take(i as int)),
        decreases v@.len() - i,
    {
        if v[i] > u32::MAX as u64 {
            return None;
        }
        let ghost before = out@;
        out.push(v[i] as u32);
        proof {
            assert(v@.take(i + 1) =~= v@.take(i as int).push(v@[i as int]));
            assert(u32_ints(out@) =~= u32_ints(before).push(v@[i as int] as int));
            assert(u32_ints(out@) =~= u64_ints(v@.take(i + 1)));
        }
        i = i + 1;
    }
    proof {
        assert(v@.take(i as int) =~= v@);
    }
    Some(out)
}

/// Decodes a column of `bool` values: any non-zero value is true.
pub fn bool_column(v: &Vec<u64>) -> (r: Vec<bool>)
    ensures
        r@.len() == v@.len(),
        forall|i: int| 0 <= i < v@.len() ==> #[trigger] r@[i] == (v@[i] != 0),
{
    let mut out: Vec<bool> = Vec::new();
    let mut i: usize = 0;
    while i < v.len()
        invariant
            i <= v@.len(),
            out@.len() == i,
            forall|k: int| 0 <= k < i ==> #[trigger] out@[k] == (v@[k] != 0),
        decreases v@.len() - i,
    {
        out.push(v[i] != 0);
        i = i + 1;
    }
    out
}

/// The member kind of a stored value: 0 node, 1 way, 2 relation.
pub open spec fn member_type_of(v: int) -> Option<MemberType> {
    if v == 0 {
        Some(MemberType::Node)
    } else if v == 1 {
        Some(MemberType::Way)
    } else if v == 2 {
        Some(MemberType::Relation)
    } else {
        None
    }
}

/// Decodes a column of member kinds; `None` on an unknown kind.
pub fn member_type_column(v: &Vec<u64>) -> (r: Option<Vec<MemberType>>)
    ensures
        r is Some <==> forall|i: int| 0 <= i < v@.len() ==> #[trigger] member_type_of(v@[i] as int) is Some,
        r matches Some(c) ==> c@.len() == v@.len() && forall|i: int| 0 <= i < v@.len() ==> Some(#[trigger] c@[i]) == member_type_of(v@[i] as int),
{
    let mut out: Vec<MemberType> = Vec::new();
    let mut i: usize = 0;
    while i < v.len()
        invariant
            i <= v@.len(),
            out@.len() == i,
            forall|k: int| 0 <= k < i ==> #[trigger] member_type_of(v@[k] as int) is Some,
            forall|k: int| 0 <= k < i ==> Some(#[trigger] out@[k]) == member_type_of(v@[k] as int),
        decreases v@.len() - i,
    {
        let t = if v[i] == 0 {
            MemberType::Node
        } else if v[i] == 1 {
            MemberType::Way
        } else if v[i] == 2 {
            MemberType::Relation
        } else {
            assert(member_type_of(v@[i as int] as int) is None);
            return None;
        };
        out.push(t);
        i = i + 1;
    }
    Some(out)
}

/// An optional `int32` field, or its default.
pub open spec fn opt_int32(fs: Seq<(int, WireValue)>, n: int, d: int) -> Option<int> {
    match last_varint(fs, n) {
        None => Some(d),
        Some(v) => int32_of(v),
    }
}

/// An optional `int64` field, or its default.
pub open spec fn opt_int64(fs: Seq<(int, WireValue)>, n: int, d: int) -> int {
    match last_varint(fs, n) {
        None => d,
        Some(v) => signed64(v),
    }
}

/// An optional `uint32` field, or its default.
pub open spec fn opt_uint32(fs: Seq<(int, WireValue)>, n: int, d: int) -> Option<int> {
    match last_varint(fs, n) {
        None => Some(d),
        Some(v) => uint32_of(v),
    }
}

/// An optional `bool` field, or its default.
pub open spec fn opt_bool(fs: Seq<(int, WireValue)>, n: int, d: bool) -> bool {
    match last_varint(fs, n) {
        None => d,
        Some(v) => v != 0,
    }
}

/// A required `sint64` field.
pub open spec fn req_sint64(fs: Seq<(int, WireValue)>, n: int) -> Option<int> {
    match last_varint(fs, n) {
        None => None,
        Some(v) => Some(zigzag(v)),
    }
}

/// A required `int64` field.
pub open spec fn req_int64(fs: Seq<(int, WireValue)>, n: int) -> Option<int> {
    match last_varint(fs, n) {
        None => None,
        Some(v) => Some(signed64(v)),
    }
}

fn get_int32(fs: &Vec<(u64, WireValue)>, n: u64, d: i32) -> (r: Option<i32>)
    ensures
        match opt_int32(field_ints(fs@), n as int, d as int) {
            None => r is None,
            Some(x) => r matches Some(y) && y as int == x,
        },
{
    match find_last_varint(fs, n) {
        None => Some(d),
        Some(v) => {
            let w = to_signed64(v);
            if w < i32::MIN as i64 || w > i32::MAX as i64 {
                None
            } else {
                Some(w as i32)
            }
        },
    }
}

fn get_int64(fs: &Vec<(u64, WireValue)>, n: u64, d: i64) -> (r: i64)
    ensures
        r == opt_int64(field_ints(fs@), n as int, d as int),
{
    match find_last_varint(fs, n) {
        None => d,
        Some(v) => to_signed64(v),
    }
}

fn get_uint32(fs: &Vec<(u64, WireValue)>, n: u64, d: u32) -> (r: Option<u32>)
    ensures
        match opt_uint32(field_ints(fs@), n as int, d as int) {
            None => r is None,
            Some(x) => r matches Some(y) && y as int == x,
        },
{
    match find_last_varint(fs, n) {
        None => Some(d),
        Some(v) => if v > u32::MAX as u64 {
            None
        } else {
            Some(v as u32)
        },
    }
}

fn get_bool(fs: &Vec<(u64, WireValue)>, n: u64, d: bool) -> (r: bool)
    ensures
        r == opt_bool(field_ints(fs@), n as int, d),
{
    match find_last_varint(fs, n) {
        None => d,
        Some(v) => v != 0,
    }
}

fn get_sint64(fs: &Vec<(u64, WireValue)>, n: u64) -> (r: Option<i64>)
    ensures
        match req_sint64(field_ints(fs@), n as int) {
            None => r is None,
            Some(x) => r matches Some(y) && y as int == x,
        },
{
    match find_last_varint(fs, n) {
        None => None,
        Some(v) => Some(unzigzag(v)),
    }
}

fn get_req_int64(fs: &Vec<(u64, WireValue)>, n: u64) -> (r: Option<i64>)
    ensures
        match req_int64(field_ints(fs@), n as int) {
            None => r is None,
            Some(x) => r matches Some(y) && y as int == x,
        },
{
    match find_last_varint(fs, n) {
        None => None,
        Some(v) => Some(to_signed64(v)),
    }
}

fn malformed(what: &str) -> (r: BlobError)
    ensures
        r is InvalidFormat,
{
    BlobError::InvalidFormat(what.to_owned())
}

/// The Info message `b[s..e]`: fields 1 to 6, with defaults 0 and visible.
pub open spec fn info_wire(b: Seq<u8>, s: int, e: int, i: Info) -> bool {
    match fields_list(b, s, e) {
        None => false,
        Some(fs) => {
            &&& opt_int32(fs, 1, 0) == Some(i.version as int)
            &&& i.timestamp == opt_int64(fs, 2, 0)
            &&& i.changeset == opt_int64(fs, 3, 0)
            &&& opt_int32(fs, 4, 0) == Some(i.uid as int)
            &&& opt_uint32(fs, 5, 0) == Some(i.user_sid as int)
            &&& i.visible == opt_bool(fs, 6, true)
        },
    }
}

/// Reads the Info message `b[s..e]`.
pub fn read_info(b: &[u8], s: usize, e: usize) -> (r: Result<Info, BlobError>)
    requires
        s <= e <= b@.len(),
    ensures
        r matches Ok(i) ==> info_wire(b@, s as int, e as int, i),
        r is Err ==> r->Err_0 is InvalidFormat && forall|i: Info| !info_wire(b@, s as int, e as int, i),
{
    let fs = match read_fields(b, s, e) {
        None => return Err(malformed("malformed info")),
        Some(f) => f,
    };
    let version = match get_int32(&fs, 1, 0) {
        None => return Err(malformed("info version out of range")),
        Some(v) => v,
    };
    let uid = match get_int32(&fs, 4, 0) {
        None => return Err(malformed("info uid out of range")),
        Some(v) => v,
    };
    let user_sid = match get_uint32(&fs, 5, 0) {
        None => return Err(malformed("info user_sid out of range")),
        Some(v) => v,
    };
    Ok(Info {
        version,
        timestamp: get_int64(&fs, 2, 0),
        changeset: get_int64(&fs, 3, 0),
        uid,
        user_sid,
        visible: get_bool(&fs, 6, true),
    })
}

/// The optional Info of an element: the last field-4 message, if any.
pub open spec fn opt_info_wire(b: Seq<u8>, fs: Seq<(int, WireValue)>, info: Option<Info>) -> bool {
    let sp = spans_of(fs, 4);
    if sp.len() == 0 {
        info is None
    } else {
        info matches Some(i) && info_wire(b, sp.last().0, sp.last().1, i)
    }
}

fn get_info(b: &[u8], fs: &Vec<(u64, WireValue)>, end: usize) -> (r: Result<Option<Info>, BlobError>)
    requires
        end <= b@.len(),
        fields_within(fs@, end as int),
    ensures
        r matches Ok(i) ==> opt_info_wire(b@, field_ints(fs@), i),
        r is Err ==> r->Err_0 is InvalidFormat && forall|i: Option<Info>| !opt_info_wire(b@, field_ints(fs@), i),
{
    let sp = collect_spans(fs, 4);
    proof {
        lemma_spans_within(fs@, 4, end as int);
        assert(span_ints(sp@).len() == sp@.len());
    }
    if sp.len() == 0 {
        return Ok(None);
    }
    let (s, e) = sp[sp.len() - 1];
    proof {
        assert(span_ints(sp@)[sp@.len() - 1] == (s as int, e as int));
    }
    match read_info(b, s, e) {
        Ok(i) => Ok(Some(i)),
        Err(x) => Err(x),
    }
}

/// The ChangeSet message `b[s..e]`: its required id.
pub open spec fn changeset_wire(b: Seq<u8>, s: int, e: int, c: ChangeSet) -> bool {
    match fields_list(b, s, e) {
        None => false,
        Some(fs) => {
            &&& req_int64(fs, 1) == Some(c.id as int)
            &&& c.keys@.len() == 0
            &&& c.vals@.len() == 0
            &&& c.info is None
        },
    }
}

/// Reads the ChangeSet message `b[s..e]`.
pub fn read_changeset(b: &[u8], s: usize, e: usize) -> (r: Result<ChangeSet, BlobError>)
    requires
        s <= e <= b@.len(),
    ensures
        r matches Ok(c) ==> changeset_wire(b@, s as int, e as int, c),
        r is Err ==> r->Err_0 is InvalidFormat && forall|c: ChangeSet| !changeset_wire(b@, s as int, e as int, c),
{
    let fs = match read_fields(b, s, e) {
        None => return Err(malformed("malformed changeset")),
        Some(f) => f,
    };
    let id = match get_req_int64(&fs, 1) {
        None => return Err(malformed("changeset without id")),
        Some(v) => v,
    };
    Ok(ChangeSet { id, keys: Vec::new(), vals: Vec::new(), info: None })
}

/// The values packed in every occurrence of field `n`, in order.
pub open spec fn packed_field(b: Seq<u8>, fs: Seq<(int, WireValue)>, n: int) -> Option<Seq<int>> {
    packed_spans(b, spans_of(fs, n), Seq::empty())
}

fn get_packed(b: &[u8], fs: &Vec<(u64, WireValue)>, n: u64, end: usize) -> (r: Option<Vec<u64>>)
    requires
        end <= b@.len(),
        fields_within(fs@, end as int),
    ensures
        match packed_field(b@, field_ints(fs@), n as int) {
            None => r is None,
            Some(c) => r matches Some(v) && u64_ints(v@) == c,
        },
{
    let sp = collect_spans(fs, n);
    proof {
        lemma_spans_within(fs@, n as int, end as int);
        assert forall|i: int| 0 <= i < sp@.len() implies (#[trigger] sp@[i]).0 <= sp@[i].1 <= b@.len() by {
            assert(span_ints(sp@)[i] == (sp@[i].0 as int, sp@[i].1 as int));
        }
    }
    read_packed(b, &sp)
}

/// A packed `uint32` column, or `None` when a value leaves `u32`.
pub open spec fn uint32_col(o: Option<Seq<int>>) -> Option<Seq<int>> {
    match o {
        None => None,
        Some(c) => if forall|i: int| 0 <= i < c.len() ==> #[trigger] c[i] <= u32::MAX {
            Some(c)
        } else {
            None
        },
    }
}

fn get_u32s(b: &[u8], fs: &Vec<(u64, WireValue)>, n: u64, end: usize) -> (r: Option<Vec<u32>>)
    requires
        end <= b@.len(),
        fields_within(fs@, end as int),
    ensures
        match uint32_col(packed_field(b@, field_ints(fs@), n as int)) {
            None => r is None,
            Some(c) => r matches Some(v) && u32_ints(v@) == c,
        },
{
    match get_packed(b, fs, n, end) {
        None => None,
        Some(v) => {
            let r = u32_column(&v);
            proof {
                if r is None {
                    let i = choose|i: int| 0 <= i < v@.len() && !(v@[i] <= u32::MAX);
                    assert(u64_ints(v@)[i] == v@[i] as int);
                } else {
                    assert forall|i: int| 0 <= i < u64_ints(v@).len() implies #[trigger] u64_ints(v@)[i] <= u32::MAX by {
                        assert(u64_ints(v@)[i] == v@[i] as int);
                    }
                }
            }
            r
        },
    }
}

/// The Node message `b[s..e]`: id, keys, vals, info, lat and lon as stored.
pub open spec fn node_wire(b: Seq<u8>, s: int, e: int, n: Node) -> bool {
    match fields_list(b, s, e) {
        None => false,
        Some(fs) => {
            &&& req_sint64(fs, 1) == Some(n.id as int)
            &&& uint32_col(packed_field(b, fs, 2)) == Some(u32_ints(n.keys@))
            &&& uint32_col(packed_field(b, fs, 3)) == Some(u32_ints(n.vals@))
            &&& opt_info_wire(b, fs, n.info)
            &&& req_sint64(fs, 8) == Some(n.lat as int)
            &&& req_sint64(fs, 9) == Some(n.lon as int)
        },
    }
}

/// Reads the Node message `b[s..e]`.
pub fn read_node(b: &[u8], s: usize, e: usize) -> (r: Result<Node, BlobError>)
    requires
        s <= e <= b@.len(),
    ensures
        r matches Ok(n) ==> node_wire(b@, s as int, e as int, n),
        r is Err ==> r->Err_0 is InvalidFormat && forall|n: Node| !node_wire(b@, s as int, e as int, n),
{
    let fs = match read_fields(b, s, e) {
        None => return Err(malformed("malformed node")),
        Some(f) => f,
    };
    let id = match get_sint64(&fs, 1) {
        None => return Err(malformed("node without id")),
        Some(v) => v,
    };
    let keys = match get_u32s(b, &fs, 2, e) {
        None => return Err(malformed("malformed node keys")),
        Some(v) => v,
    };
    let vals = match get_u32s(b, &fs, 3, e) {
        None => return Err(malformed("malformed node values")),
        Some(v) => v,
    };
    let info = match get_info(b, &fs, e) {
        Err(x) => return Err(x),
        Ok(i) => i,
    };
    let lat = match get_sint64(&fs, 8) {
        None => return Err(malformed("node without lat")),
        Some(v) => v,
    };
    let lon = match get_sint64(&fs, 9) {
        None => return Err(malformed("node without lon")),
        Some(v) => v,
    };
    Ok(Node { id, keys, vals, info, lat, lon })
}

/// The Way message `b[s..e]`: id, keys, vals, info, and the stored
/// (delta-coded) node ids.
pub open spec fn way_wire(b: Seq<u8>, s: int, e: int, w: Way) -> bool {
    match fields_list(b, s, e) {
        None => false,
        Some(fs) => {
            &&& req_int64(fs, 1) == Some(w.id as int)
            &&& uint32_col(packed_field(b, fs, 2)) == Some(u32_ints(w.keys@))
            &&& uint32_col(packed_field(b, fs, 3)) == Some(u32_ints(w.vals@))
            &&& opt_info_wire(b, fs, w.info)
            &&& packed_field(b, fs, 8) matches Some(c) && ints(w.refs@) == sint64_col(c)
        },
    }
}

/// Reads the Way message `b[s..e]`.
pub fn read_way(b: &[u8], s: usize, e: usize) -> (r: Result<Way, BlobError>)
    requires
        s <= e <= b@.len(),
    ensures
        r matches Ok(w) ==> way_wire(b@, s as int, e as int, w),
        r is Err ==> r->Err_0 is InvalidFormat && forall|w: Way| !way_wire(b@, s as int, e as int, w),
{
    let fs = match read_fields(b, s, e) {
        None => return Err(malformed("malformed way")),
        Some(f) => f,
    };
    let id = match get_req_int64(&fs, 1) {
        None => return Err(malformed("way without id")),
        Some(v) => v,
    };
    let keys = match get_u32s(b, &fs, 2, e) {
        None => return Err(malformed("malformed way keys")),
        Some(v) => v,
    };
    let vals = match get_u32s(b, &fs, 3, e) {
        None => return Err(malformed("malformed way values")),
        Some(v) => v,
    };
    let info = match get_info(b, &fs, e) {
        Err(x) => return Err(x),
        Ok(i) => i,
    };
    let refs = match get_packed(b, &fs, 8, e) {
        None => return Err(malformed("malformed way refs")),
        Some(v) => sint64_column(&v),
    };
    Ok(Way { id, keys, vals, info, refs })
}

/// The member kinds of a packed column, or `None` on an unknown kind.
pub open spec fn member_types_match(c: Seq<int>, t: Seq<MemberType>) -> bool {
    t.len() == c.len() && forall|i: int| 0 <= i < c.len() ==> Some(#[trigger] t[i]) == member_type_of(c[i])
}

/// The Relation message `b[s..e]`: id, keys, vals, info, roles, stored
/// (delta-coded) member ids, and member kinds.
pub open spec fn relation_wire(b: Seq<u8>, s: int, e: int, r: Relation) -> bool {
    match fields_list(b, s, e) {
        None => false,
        Some(fs) => {
            &&& req_int64(fs, 1) == Some(r.id as int)
            &&& uint32_col(packed_field(b, fs, 2)) == Some(u32_ints(r.keys@))
            &&& uint32_col(packed_field(b, fs, 3)) == Some(u32_ints(r.vals@))
            &&& opt_info_wire(b, fs, r.info)
            &&& packed_field(b, fs, 8) matches Some(c) && int32_col(c) == Some(ints32(r.roles_sid@))
            &&& packed_field(b, fs, 9) matches Some(c) && ints(r.memids@) == sint64_col(c)
            &&& packed_field(b, fs, 10) matches Some(c) && member_types_match(c, r.types@)
        },
    }
}

/// Reads the Relation message `b[s..e]`.
pub fn read_relation(b: &[u8], s: usize, e: usize) -> (r: Result<Relation, BlobError>)
    requires
        s <= e <= b@.len(),
    ensures
        r matches Ok(x) ==> relation_wire(b@, s as int, e as int, x),
        r is Err ==> r->Err_0 is InvalidFormat && forall|x: Relation| !relation_wire(b@, s as int, e as int, x),
{
    let fs = match read_fields(b, s, e) {
        None => return Err(malformed("malformed relation")),
        Some(f) => f,
    };
    let id = match get_req_int64(&fs, 1) {
        None => return Err(malformed("relation without id")),
        Some(v) => v,
    };
    let keys = match get_u32s(b, &fs, 2, e) {
        None => return Err(malformed("malformed relation keys")),
        Some(v) => v,
    };
    let vals = match get_u32s(b, &fs, 3, e) {
        None => return Err(malformed("malformed relation values")),
        Some(v) => v,
    };
    let info = match get_info(b, &fs, e) {
        Err(x) => return Err(x),
        Ok(i) => i,
    };
    let roles_sid = match get_packed(b, &fs, 8, e) {
        None => return Err(malformed("malformed relation roles")),
        Some(v) => match i32_column(&v, false) {
            None => return Err(malformed("relation role out of range")),
            Some(c) => c,
        },
    };
    let memids = match get_packed(b, &fs, 9, e) {
        None => return Err(malformed("malformed relation members")),
        Some(v) => sint64_column(&v),
    };
    let types = match get_packed(b, &fs, 10, e) {
        None => return Err(malformed("malformed relation member types")),
        Some(v) => match member_type_column(&v) {
            None => {
                proof {
                    let i = choose|i: int| 0 <= i < v@.len() && !(member_type_of(v@[i] as int) is Some);
                    assert(u64_ints(v@)[i] == v@[i] as int);
                    assert forall|x: Relation| !relation_wire(b@, s as int, e as int, x) by {
                        if member_types_match(u64_ints(v@), x.types@) {
                            assert(Some(x.types@[i]) == member_type_of(u64_ints(v@)[i]));
                        }
                    }
                }
                return Err(malformed("unknown relation member type"));
            },
            Some(c) => {
                proof {
                    assert forall|i: int| 0 <= i < v@.len() implies Some(#[trigger] c@[i]) == member_type_of(u64_ints(v@)[i]) by {
                        assert(u64_ints(v@)[i] == v@[i] as int);
                    }
                }
                c
            },
        },
    };
    Ok(Relation { id, keys, vals, info, roles_sid, memids, types })
}

/// A packed `bool` column.
pub open spec fn bools_match(c: Seq<int>, v: Seq<bool>) -> bool {
    v.len() == c.len() && forall|i: int| 0 <= i < c.len() ==> #[trigger] v[i] == (c[i] != 0)
}

/// The DenseInfo message `b[s..e]`: its six packed columns.
pub open spec fn dense_info_wire(b: Seq<u8>, s: int, e: int, d: DenseInfo) -> bool {
    match fields_list(b, s, e) {
        None => false,
        Some(fs) => {
            &&& packed_field(b, fs, 1) matches Some(c) && int32_col(c) == Some(ints32(d.version@))
            &&& packed_field(b, fs, 2) matches Some(c) && ints(d.timestamp@) == sint64_col(c)
            &&& packed_field(b, fs, 3) matches Some(c) && ints(d.changeset@) == sint64_col(c)
            &&& packed_field(b, fs, 4) matches Some(c) && sint32_col(c) == Some(ints32(d.uid@))
            &&& packed_field(b, fs, 5) matches Some(c) && sint32_col(c) == Some(ints32(d.user_sid@))
            &&& packed_field(b, fs, 6) matches Some(c) && bools_match(c, d.visible@)
        },
    }
}

fn get_i32s(b: &[u8], fs: &Vec<(u64, WireValue)>, n: u64, end: usize, zig: bool) -> (r: Option<Vec<i32>>)
    requires
        end <= b@.len(),
        fields_within(fs@, end as int),
    ensures
        r is Some <==> (packed_field(b@, field_ints(fs@), n as int) matches Some(c)
            && (if zig { sint32_col(c) } else { int32_col(c) }) is Some),
        r matches Some(v) ==> (packed_field(b@, field_ints(fs@), n as int) matches Some(c)
            && (if zig { sint32_col(c) } else { int32_col(c) }) == Some(ints32(v@))),
{
    match get_packed(b, fs, n, end) {
        None => None,
        Some(v) => i32_column(&v, zig),
    }
}

fn get_i64s(b: &[u8], fs: &Vec<(u64, WireValue)>, n: u64, end: usize) -> (r: Option<Vec<i64>>)
    requires
        end <= b@.len(),
        fields_within(fs@, end as int),
    ensures
        r is Some <==> packed_field(b@, field_ints(fs@), n as int) is Some,
        r matches Some(v) ==> (packed_field(b@, field_ints(fs@), n as int) matches Some(c)
            && ints(v@) == sint64_col(c)),
{
    match get_packed(b, fs, n, end) {
        None => None,
        Some(v) => Some(sint64_column(&v)),
    }
}

/// Reads the DenseInfo message `b[s..e]`.
pub fn read_dense_info(b: &[u8], s: usize, e: usize) -> (r: Result<DenseInfo, BlobError>)
    requires
        s <= e <= b@.len(),
    ensures
        r matches Ok(d) ==> dense_info_wire(b@, s as int, e as int, d),
        r is Err ==> r->Err_0 is InvalidFormat && forall|d: DenseInfo| !dense_info_wire(b@, s as int, e as int, d),
{
    let fs = match read_fields(b, s, e) {
        None => return Err(malformed("malformed dense info")),
        Some(f) => f,
    };
    let version = match get_i32s(b, &fs, 1, e, false) {
        None => return Err(malformed("malformed dense versions")),
        Some(v) => v,
    };
    let timestamp = match get_i64s(b, &fs, 2, e) {
        None => return Err(malformed("malformed dense timestamps")),
        Some(v) => v,
    };
    let changeset = match get_i64s(b, &fs, 3, e) {
        None => return Err(malformed("malformed dense changesets")),
        Some(v) => v,
    };
    let uid = match get_i32s(b, &fs, 4, e, true) {
        None => return Err(malformed("malformed dense uids")),
        Some(v) => v,
    };
    let user_sid = match get_i32s(b, &fs, 5, e, true) {
        None => return Err(malformed("malformed dense user names")),
        Some(v) => v,
    };
    let visible = match get_packed(b, &fs, 6, e) {
        None => return Err(malformed("malformed dense visibility")),
        Some(v) => {
            let c = bool_column(&v);
            proof {
                assert forall|i: int| 0 <= i < u64_ints(v@).len() implies #[trigger] c@[i] == (u64_ints(v@)[i] != 0) by {
                    assert(u64_ints(v@)[i] == v@[i] as int);
                }
            }
            c
        },
    };
    Ok(DenseInfo { version, timestamp, changeset, uid, user_sid, visible })
}

/// The DenseNodes message `b[s..e]`: stored (delta-coded) ids and
/// coordinates, the tag stream, and optional metadata.
pub open spec fn dense_wire(b: Seq<u8>, s: int, e: int, d: DenseNodes) -> bool {
    match fields_list(b, s, e) {
        None => false,
        Some(fs) => {
            &&& packed_field(b, fs, 1) matches Some(c) && ints(d.id@) == sint64_col(c)
            &&& packed_field(b, fs, 8) matches Some(c) && ints(d.lat@) == sint64_col(c)
            &&& packed_field(b, fs, 9) matches Some(c) && ints(d.lon@) == sint64_col(c)
            &&& packed_field(b, fs, 10) matches Some(c) && int32_col(c) == Some(ints32(d.keys_vals@))
            &&& (if spans_of(fs, 5).len() == 0 {
                d.denseinfo is None
            } else {
                d.denseinfo matches Some(x) && dense_info_wire(b, spans_of(fs, 5).last().0, spans_of(fs, 5).last().1, x)
            })
        },
    }
}

/// Reads the DenseNodes message `b[s..e]`.
pub fn read_dense(b: &[u8], s: usize, e: usize) -> (r: Result<DenseNodes, BlobError>)
    requires
        s <= e <= b@.len(),
    ensures
        r matches Ok(d) ==> dense_wire(b@, s as int, e as int, d),
        r is Err ==> r->Err_0 is InvalidFormat && forall|d: DenseNodes| !dense_wire(b@, s as int, e as int, d),
{
    let fs = match read_fields(b, s, e) {
        None => return Err(malformed("malformed dense nodes")),
        Some(f) => f,
    };
    let id = match get_i64s(b, &fs, 1, e) {
        None => return Err(malformed("malformed dense ids")),
        Some(v) => v,
    };
    let lat = match get_i64s(b, &fs, 8, e) {
        None => return Err(malformed("malformed dense latitudes")),
        Some(v) => v,
    };
    let lon = match get_i64s(b, &fs, 9, e) {
        None => return Err(malformed("malformed dense longitudes")),
        Some(v) => v,
    };
    let keys_vals = match get_i32s(b, &fs, 10, e, false) {
        None => return Err(malformed("malformed dense tags")),
        Some(v) => v,
    };
    let sp = collect_spans(&fs, 5);
    proof {
        lemma_spans_within(fs@, 5, e as int);
        assert(span_ints(sp@).len() == sp@.len());
    }
    let denseinfo = if sp.len() == 0 {
        None
    } else {
        let (x, y) = sp[sp.len() - 1];
        proof {
            assert(span_ints(sp@)[sp@.len() - 1] == (x as int, y as int));
        }
        match read_dense_info(b, x, y) {
            Err(err) => return Err(err),
            Ok(d) => Some(d),
        }
    };
    Ok(DenseNodes { id, denseinfo, lat, lon, keys_vals })
}

/// The PrimitiveGroup message `b[s..e]`: each repeated element message in
/// order, and the last dense message, if any.
pub open spec fn group_wire(b: Seq<u8>, s: int, e: int, g: PrimitiveGroup) -> bool {
    match fields_list(b, s, e) {
        None => false,
        Some(fs) => {
            let sn = spans_of(fs, 1);
            let sd = spans_of(fs, 2);
            let sw = spans_of(fs, 3);
            let sr = spans_of(fs, 4);
            let sc = spans_of(fs, 5);
            &&& g.nodes@.len() == sn.len()
            &&& forall|i: int| 0 <= i < sn.len() ==> node_wire(b, sn[i].0, sn[i].1, #[trigger] g.nodes@[i])
            &&& (if sd.len() == 0 {
                g.dense is None
            } else {
                g.dense matches Some(d) && dense_wire(b, sd.last().0, sd.last().1, d)
            })
            &&& g.ways@.len() == sw.len()
            &&& forall|i: int| 0 <= i < sw.len() ==> way_wire(b, sw[i].0, sw[i].1, #[trigger] g.ways@[i])
            &&& g.relations@.len() == sr.len()
            &&& forall|i: int| 0 <= i < sr.len() ==> relation_wire(b, sr[i].0, sr[i].1, #[trigger] g.relations@[i])
            &&& g.changesets@.len() == sc.len()
            &&& forall|i: int| 0 <= i < sc.len() ==> changeset_wire(b, sc[i].0, sc[i].1, #[trigger] g.changesets@[i])
        },
    }
}

/// Reads the PrimitiveGroup message `b[s..e]`.
pub fn read_group(b: &[u8], s: usize, e: usize) -> (r: Result<PrimitiveGroup, BlobError>)
    requires
        s <= e <= b@.len(),
    ensures
        r matches Ok(g) ==> group_wire(b@, s as int, e as int, g),
        r is Err ==> r->Err_0 is InvalidFormat && forall|g: PrimitiveGroup| !group_wire(b@, s as int, e as int, g),
{
    let fs = match read_fields(b, s, e) {
        None => return Err(malformed("malformed group")),
        Some(f) => f,
    };
    let mut nodes: Vec<Node> = Vec::new();
    let mut ways: Vec<Way> = Vec::new();
    let mut relations: Vec<Relation> = Vec::new();
    let mut changesets: Vec<ChangeSet> = Vec::new();
    let ghost sn;
    let ghost sw;
    let ghost sr;
    let ghost sc;
    {
        let sp = collect_spans(&fs, 1);
        proof {
            lemma_spans_within(fs@, 1, e as int);
            assert(span_ints(sp@).len() == sp@.len());
        }
        let mut k: usize = 0;
        while k < sp.len()
            invariant
                e <= b@.len(),
                s <= e,
                fields_list(b@, s as int, e as int) == Some(field_ints(fs@)),
                fields_within(fs@, e as int),
                span_ints(sp@) == spans_of(field_ints(fs@), 1),
                forall|i: int| 0 <= i < span_ints(sp@).len() ==> (#[trigger] span_ints(sp@)[i]).0 <= span_ints(sp@)[i].1 <= e,
                k <= sp@.len(),
                nodes@.len() == k,
                forall|i: int| 0 <= i < k ==> node_wire(b@, span_ints(sp@)[i].0, span_ints(sp@)[i].1, #[trigger] nodes@[i]),
            decreases sp@.len() - k,
        {
            let (x, y) = sp[k];
            assert(span_ints(sp@)[k as int] == (x as int, y as int));
            match read_node(b, x, y) {
                Err(err) => {
                    proof {
                        assert forall|g: PrimitiveGroup| !group_wire(b@, s as int, e as int, g) by {
                            if group_wire(b@, s as int, e as int, g) {
                                assert(node_wire(b@, x as int, y as int, g.nodes@[k as int]));
                            }
                        }
                    }
                    return Err(err);
                },
                Ok(v) => nodes.push(v),
            }
            k = k + 1;
        }
        proof {
            sn = span_ints(sp@);
        }
    }
    {
        let sp = collect_spans(&fs, 3);
        proof {
            lemma_spans_within(fs@, 3, e as int);
            assert(span_ints(sp@).len() == sp@.len());
        }
        let mut k: usize = 0;
        while k < sp.len()
            invariant
                e <= b@.len(),
                s <= e,
                fields_list(b@, s as int, e as int) == Some(field_ints(fs@)),
                fields_within(fs@, e as int),
                span_ints(sp@) == spans_of(field_ints(fs@), 3),
                forall|i: int| 0 <= i < span_ints(sp@).len() ==> (#[trigger] span_ints(sp@)[i]).0 <= span_ints(sp@)[i].1 <= e,
                k <= sp@.len(),
                ways@.len() == k,
                forall|i: int| 0 <= i < k ==> way_wire(b@, span_ints(sp@)[i].0, span_ints(sp@)[i].1, #[trigger] ways@[i]),
            decreases sp@.len() - k,
        {
            let (x, y) = sp[k];
            assert(span_ints(sp@)[k as int] == (x as int, y as int));
            match read_way(b, x, y) {
                Err(err) => {
                    proof {
                        assert forall|g: PrimitiveGroup| !group_wire(b@, s as int, e as int, g) by {
                            if group_wire(b@, s as int, e as int, g) {
                                assert(way_wire(b@, x as int, y as int, g.ways@[k as int]));
                            }
                        }
                    }
                    return Err(err);
                },
                Ok(v) => ways.push(v),
            }
            k = k + 1;
        }
        proof {
            sw = span_ints(sp@);
        }
    }
    {
        let sp = collect_spans(&fs, 4);
        proof {
            lemma_spans_within(fs@, 4, e as int);
            assert(span_ints(sp@).len() == sp@.len());
        }
        let mut k: usize = 0;
        while k < sp.len()
            invariant
                e <= b@.len(),
                s <= e,
                fields_list(b@, s as int, e as int) == Some(field_ints(fs@)),
                fields_within(fs@, e as int),
                span_ints(sp@) == spans_of(field_ints(fs@), 4),
                forall|i: int| 0 <= i < span_ints(sp@).len() ==> (#[trigger] span_ints(sp@)[i]).0 <= span_ints(sp@)[i].1 <= e,
                k <= sp@.len(),
                relations@.len() == k,
                forall|i: int| 0 <= i < k ==> relation_wire(b@, span_ints(sp@)[i].0, span_ints(sp@)[i].1, #[trigger] relations@[i]),
            decreases sp@.len() - k,
        {
            let (x, y) = sp[k];
            assert(span_ints(sp@)[k as int] == (x as int, y as int));
            match read_relation(b, x, y) {
                Err(err) => {
                    proof {
                        assert forall|g: PrimitiveGroup| !group_wire(b@, s as int, e as int, g) by {
                            if group_wire(b@, s as int, e as int, g) {
                                assert(relation_wire(b@, x as int, y as int, g.relations@[k as int]));
                            }
                        }
                    }
                    return Err(err);
                },
                Ok(v) => relations.push(v),
            }
            k = k + 1;
        }
        proof {
            sr = span_ints(sp@);
        }
    }
    {
        let sp = collect_spans(&fs, 5);
        proof {
            lemma_spans_within(fs@, 5, e as int);
            assert(span_ints(sp@).len() == sp@.len());
        }
        let mut k: usize = 0;
        while k < sp.len()
            invariant
                e <= b@.len(),
                s <= e,
                fields_list(b@, s as int, e as int) == Some(field_ints(fs@)),
                fields_within(fs@, e as int),
                span_ints(sp@) == spans_of(field_ints(fs@), 5),
                forall|i: int| 0 <= i < span_ints(sp@).len() ==> (#[trigger] span_ints(sp@)[i]).0 <= span_ints(sp@)[i].1 <= e,
                k <= sp@.len(),
                changesets@.len() == k,
                forall|i: int| 0 <= i < k ==> changeset_wire(b@, span_ints(sp@)[i].0, span_ints(sp@)[i].1, #[trigger] changesets@[i]),
            decreases sp@.len() - k,
        {
            let (x, y) = sp[k];
            assert(span_ints(sp@)[k as int] == (x as int, y as int));
            match read_changeset(b, x, y) {
                Err(err) => {
                    proof {
                        assert forall|g: PrimitiveGroup| !group_wire(b@, s as int, e as int, g) by {
                            if group_wire(b@, s as int, e as int, g) {
                                assert(changeset_wire(b@, x as int, y as int, g.changesets@[k as int]));
                            }
                        }
                    }
                    return Err(err);
                },
                Ok(v) => changesets.push(v),
            }
            k = k + 1;
        }
        proof {
            sc = span_ints(sp@);
        }
    }
    let sp = collect_spans(&fs, 2);
    proof {
        lemma_spans_within(fs@, 2, e as int);
        assert(span_ints(sp@).len() == sp@.len());
    }
    let dense = if sp.len() == 0 {
        None
    } else {
        let (x, y) = sp[sp.len() - 1];
        proof {
            assert(span_ints(sp@)[sp@.len() - 1] == (x as int, y as int));
        }
        match read_dense(b, x, y) {
            Err(err) => return Err(err),
            Ok(d) => Some(d),
        }
    };
    Ok(PrimitiveGroup { nodes, dense, ways, relations, changesets })
}

/// The string held in `b[span]`: valid UTF-8, decoded.
pub open spec fn string_in(b: Seq<u8>, span: (int, int), st: Seq<char>) -> bool {
    valid_utf8(b.subrange(span.0, span.1)) && st == decode_utf8(b.subrange(span.0, span.1))
}

/// The StringTable message `b[s..e]`: each field-1 string, valid UTF-8.
pub open spec fn string_table_wire(b: Seq<u8>, s: int, e: int, t: StringTable) -> bool {
    match fields_list(b, s, e) {
        None => false,
        Some(fs) => {
            let sp = spans_of(fs, 1);
            &&& t.s@.len() == sp.len()
            &&& forall|i: int| 0 <= i < sp.len() ==> string_in(b, sp[i], (#[trigger] t.s@[i])@)
        },
    }
}

/// Reads the StringTable message `b[s..e]`.
pub fn read_string_table(b: &[u8], s: usize, e: usize) -> (r: Result<StringTable, BlobError>)
    requires
        s <= e <= b@.len(),
    ensures
        r matches Ok(t) ==> string_table_wire(b@, s as int, e as int, t),
        r is Err ==> r->Err_0 is InvalidFormat && forall|t: StringTable| !string_table_wire(b@, s as int, e as int, t),
{
    let fs = match read_fields(b, s, e) {
        None => return Err(malformed("malformed string table")),
        Some(f) => f,
    };
    let sp = collect_spans(&fs, 1);
    proof {
        lemma_spans_within(fs@, 1, e as int);
        assert(span_ints(sp@).len() == sp@.len());
    }
    let mut strings: Vec<String> = Vec::new();
    let mut k: usize = 0;
    while k < sp.len()
        invariant
            e <= b@.len(),
            s <= e,
            fields_list(b@, s as int, e as int) == Some(field_ints(fs@)),
            span_ints(sp@) == spans_of(field_ints(fs@), 1),
            forall|i: int| 0 <= i < span_ints(sp@).len() ==> (#[trigger] span_ints(sp@)[i]).0 <= span_ints(sp@)[i].1 <= e,
            k <= sp@.len(),
            strings@.len() == k,
            forall|i: int| 0 <= i < k ==> string_in(b@, span_ints(sp@)[i], (#[trigger] strings@[i])@),
        decreases sp@.len() - k,
    {
        let (x, y) = sp[k];
        assert(span_ints(sp@)[k as int] == (x as int, y as int));
        let sl = slice_subrange(b, x, y);
        assert(sl@ == b@.subrange(x as int, y as int));
        match utf8_string(sl) {
            None => {
                proof {
                    assert forall|t: StringTable| !string_table_wire(b@, s as int, e as int, t) by {
                        if string_table_wire(b@, s as int, e as int, t) {
                            assert(string_in(b@, span_ints(sp@)[k as int], t.s@[k as int]@));
                        }
                    }
                }
                return Err(malformed("string is not UTF-8"));
            },
            Some(st) => {
                assert(valid_utf8(b@.subrange(x as int, y as int)));
                let ghost before = strings@;
                strings.push(st);
                assert(string_in(b@, span_ints(sp@)[k as int], strings@[k as int]@));
                assert forall|i: int| 0 <= i < k + 1 implies string_in(b@, span_ints(sp@)[i], (#[trigger] strings@[i])@) by {
                    if i < k {
                        assert(strings@[i] == before[i]);
                    }
                }
            },
        }
        k = k + 1;
    }
    Ok(StringTable { s: strings })
}

/// The PrimitiveBlock message `b[s..e]`: the last string table (required),
/// each group in order, and the coordinate frame with its defaults.
pub open spec fn block_wire(b: Seq<u8>, s: int, e: int, p: PrimitiveBlock) -> bool {
    match fields_list(b, s, e) {
        None => false,
        Some(fs) => {
            let st = spans_of(fs, 1);
            let sg = spans_of(fs, 2);
            &&& st.len() > 0
            &&& string_table_wire(b, st.last().0, st.last().1, p.stringtable)
            &&& p.primitivegroup@.len() == sg.len()
            &&& forall|i: int| 0 <= i < sg.len() ==> group_wire(b, sg[i].0, sg[i].1, #[trigger] p.primitivegroup@[i])
            &&& opt_int32(fs, 17, 100) == Some(p.granularity as int)
            &&& opt_int32(fs, 18, 1000) == Some(p.date_granularity as int)
            &&& p.lat_offset == opt_int64(fs, 19, 0)
            &&& p.lon_offset == opt_int64(fs, 20, 0)
        },
    }
}

/// Reads the PrimitiveBlock message `b[s..e]`.
pub fn read_block(b: &[u8], s: usize, e: usize) -> (r: Result<PrimitiveBlock, BlobError>)
    requires
        s <= e <= b@.len(),
    ensures
        r matches Ok(p) ==> block_wire(b@, s as int, e as int, p),
        r is Err ==> r->Err_0 is InvalidFormat && forall|p: PrimitiveBlock| !block_wire(b@, s as int, e as int, p),
{
    let fs = match read_fields(b, s, e) {
        None => return Err(malformed("malformed primitive block")),
        Some(f) => f,
    };
    let st = collect_spans(&fs, 1);
    proof {
        lemma_spans_within(fs@, 1, e as int);
        assert(span_ints(st@).len() == st@.len());
    }
    if st.len() == 0 {
        return Err(malformed("primitive block without string table"));
    }
    let (x, y) = st[st.len() - 1];
    proof {
        assert(span_ints(st@)[st@.len() - 1] == (x as int, y as int));
    }
    let stringtable = match read_string_table(b, x, y) {
        Err(err) => return Err(err),
        Ok(t) => t,
    };
    let sp = collect_spans(&fs, 2);
    proof {
        lemma_spans_within(fs@, 2, e as int);
        assert(span_ints(sp@).len() == sp@.len());
    }
    let mut groups: Vec<PrimitiveGroup> = Vec::new();
    let mut k: usize = 0;
    while k < sp.len()
        invariant
            e <= b@.len(),
            s <= e,
            fields_list(b@, s as int, e as int) == Some(field_ints(fs@)),
            span_ints(sp@) == spans_of(field_ints(fs@), 2),
            forall|i: int| 0 <= i < span_ints(sp@).len() ==> (#[trigger] span_ints(sp@)[i]).0 <= span_ints(sp@)[i].1 <= e,
            k <= sp@.len(),
            groups@.len() == k,
            forall|i: int| 0 <= i < k ==> group_wire(b@, span_ints(sp@)[i].0, span_ints(sp@)[i].1, #[trigger] groups@[i]),
        decreases sp@.len() - k,
    {
        let (x, y) = sp[k];
        assert(span_ints(sp@)[k as int] == (x as int, y as int));
        match read_group(b, x, y) {
            Err(err) => {
                proof {
                    assert forall|p: PrimitiveBlock| !block_wire(b@, s as int, e as int, p) by {
                        if block_wire(b@, s as int, e as int, p) {
                            assert(group_wire(b@, x as int, y as int, p.primitivegroup@[k as int]));
                        }
                    }
                }
                return Err(err);
            },
            Ok(g) => groups.push(g),
        }
        k = k + 1;
    }
    let granularity = match get_int32(&fs, 17, 100) {
        None => return Err(malformed("granularity out of range")),
        Some(v) => v,
    };
    let date_granularity = match get_int32(&fs, 18, 1000) {
        None => return Err(malformed("date granularity out of range")),
        Some(v) => v,
    };
    Ok(PrimitiveBlock {
        stringtable,
        primitivegroup: groups,
        granularity,
        lat_offset: get_int64(&fs, 19, 0),
        lon_offset: get_int64(&fs, 20, 0),
        date_granularity,
    })
}

/// The HeaderBBox message `b[s..e]`: left, right, top and bottom, all
/// required, in nanodegrees.
pub open spec fn bbox_wire(b: Seq<u8>, s: int, e: int, x: HeaderBBox) -> bool {
    match fields_list(b, s, e) {
        None => false,
        Some(fs) => {
            &&& req_sint64(fs, 1) == Some(x.min_lon.0 as int)
            &&& req_sint64(fs, 2) == Some(x.max_lon.0 as int)
            &&& req_sint64(fs, 3) == Some(x.max_lat.0 as int)
            &&& req_sint64(fs, 4) == Some(x.min_lat.0 as int)
        },
    }
}

/// Reads the HeaderBBox message `b[s..e]`.
pub fn read_bbox(b: &[u8], s: usize, e: usize) -> (r: Result<HeaderBBox, BlobError>)
    requires
        s <= e <= b@.len(),
    ensures
        r matches Ok(x) ==> bbox_wire(b@, s as int, e as int, x),
        r is Err ==> r->Err_0 is InvalidFormat && forall|x: HeaderBBox| !bbox_wire(b@, s as int, e as int, x),
{
    let fs = match read_fields(b, s, e) {
        None => return Err(malformed("malformed bounding box")),
        Some(f) => f,
    };
    let left = match get_sint64(&fs, 1) {
        None => return Err(malformed("bounding box without left")),
        Some(v) => v,
    };
    let right = match get_sint64(&fs, 2) {
        None => return Err(malformed("bounding box without right")),
        Some(v) => v,
    };
    let top = match get_sint64(&fs, 3) {
        None => return Err(malformed("bounding box without top")),
        Some(v) => v,
    };
    let bottom = match get_sint64(&fs, 4) {
        None => return Err(malformed("bounding box without bottom")),
        Some(v) => v,
    };
    Ok(HeaderBBox {
        min_lon: NanoDegree(left),
        max_lon: NanoDegree(right),
        min_lat: NanoDegree(bottom),
        max_lat: NanoDegree(top),
    })
}

/// The string of the last occurrence of field `n`, or `default` when there
/// is none.
pub open spec fn last_string_is(b: Seq<u8>, fs: Seq<(int, WireValue)>, n: int, st: Seq<char>, default: Seq<char>) -> bool {
    let sp = spans_of(fs, n);
    if sp.len() == 0 {
        st == default
    } else {
        string_in(b, sp.last(), st)
    }
}

/// The strings of every occurrence of field `n`, in order.
pub open spec fn strings_are(b: Seq<u8>, fs: Seq<(int, WireValue)>, n: int, v: Seq<String>) -> bool {
    let sp = spans_of(fs, n);
    v.len() == sp.len() && forall|i: int| 0 <= i < sp.len() ==> string_in(b, sp[i], (#[trigger] v[i])@)
}

fn get_strings(b: &[u8], fs: &Vec<(u64, WireValue)>, n: u64, end: usize) -> (r: Option<Vec<String>>)
    requires
        end <= b@.len(),
        fields_within(fs@, end as int),
    ensures
        r is Some <==> exists|v: Seq<String>| strings_are(b@, field_ints(fs@), n as int, v),
        r matches Some(v) ==> strings_are(b@, field_ints(fs@), n as int, v@),
{
    let sp = collect_spans(fs, n);
    proof {
        lemma_spans_within(fs@, n as int, end as int);
        assert(span_ints(sp@).len() == sp@.len());
    }
    let mut out: Vec<String> = Vec::new();
    let mut k: usize = 0;
    while k < sp.len()
        invariant
            end <= b@.len(),
            span_ints(sp@) == spans_of(field_ints(fs@), n as int),
            forall|i: int| 0 <= i < span_ints(sp@).len() ==> (#[trigger] span_ints(sp@)[i]).0 <= span_ints(sp@)[i].1 <= end,
            k <= sp@.len(),
            out@.len() == k,
            forall|i: int| 0 <= i < k ==> string_in(b@, span_ints(sp@)[i], (#[trigger] out@[i])@),
        decreases sp@.len() - k,
    {
        let (x, y) = sp[k];
        assert(span_ints(sp@)[k as int] == (x as int, y as int));
        let sl = slice_subrange(b, x, y);
        assert(sl@ == b@.subrange(x as int, y as int));
        match utf8_string(sl) {
            None => {
                proof {
                    assert forall|v: Seq<String>| !strings_are(b@, field_ints(fs@), n as int, v) by {
                        if strings_are(b@, field_ints(fs@), n as int, v) {
                            assert(string_in(b@, span_ints(sp@)[k as int], v[k as int]@));
                        }
                    }
                }
                return None;
            },
            Some(st) => {
                assert(valid_utf8(b@.subrange(x as int, y as int)));
                let ghost before = out@;
                out.push(st);
                assert(string_in(b@, span_ints(sp@)[k as int], out@[k as int]@));
                assert forall|i: int| 0 <= i < k + 1 implies string_in(b@, span_ints(sp@)[i], (#[trigger] out@[i])@) by {
                    if i < k {
                        assert(out@[i] == before[i]);
                    }
                }
            },
        }
        k = k + 1;
    }
    assert(strings_are(b@, field_ints(fs@), n as int, out@));
    Some(out)
}

fn get_last_str<'a>(b: &'a [u8], fs: &Vec<(u64, WireValue)>, n: u64, end: usize) -> (r: Result<Option<&'a str>, BlobError>)
    requires
        end <= b@.len(),
        fields_within(fs@, end as int),
    ensures
        r matches Ok(None) ==> spans_of(field_ints(fs@), n as int).len() == 0,
        r matches Ok(Some(st)) ==> spans_of(field_ints(fs@), n as int).len() > 0 && string_in(b@, spans_of(field_ints(fs@), n as int).last(), st@),
        r is Err ==> r->Err_0 is InvalidFormat && spans_of(field_ints(fs@), n as int).len() > 0
            && !valid_utf8(b@.subrange(spans_of(field_ints(fs@), n as int).last().0, spans_of(field_ints(fs@), n as int).last().1)),
{
    let sp = collect_spans(fs, n);
    proof {
        lemma_spans_within(fs@, n as int, end as int);
        assert(span_ints(sp@).len() == sp@.len());
    }
    if sp.len() == 0 {
        return Ok(None);
    }
    let (x, y) = sp[sp.len() - 1];
    proof {
        assert(span_ints(sp@)[sp@.len() - 1] == (x as int, y as int));
    }
    let sl = slice_subrange(b, x, y);
    assert(sl@ == b@.subrange(x as int, y as int));
    match utf8_str(sl) {
        None => Err(malformed("string is not UTF-8")),
        Some(st) => Ok(Some(st)),
    }
}

/// The HeaderBlock message `b[s..e]`: bounding box (field 1), required and
/// optional features (4, 5), writing program (16), source (17), and the
/// replication timestamp, sequence number and base URL (32, 33, 34), whose
/// numbers must not be negative.
pub open spec fn header_wire(b: Seq<u8>, s: int, e: int, h: HeaderBlock) -> bool {
    match fields_list(b, s, e) {
        None => false,
        Some(fs) => {
            let sb = spans_of(fs, 1);
            &&& (if sb.len() == 0 {
                h.bbox is None
            } else {
                h.bbox matches Some(x) && bbox_wire(b, sb.last().0, sb.last().1, x)
            })
            &&& strings_are(b, fs, 4, h.required_features@)
            &&& strings_are(b, fs, 5, h.optional_features@)
            &&& last_string_is(b, fs, 16, h.writing_program@, Seq::empty())
            &&& last_string_is(b, fs, 17, h.source@, Seq::empty())
            &&& match req_int64(fs, 32) {
                None => h.osmosis_replication_timestamp is None,
                Some(t) => t >= 0 && (h.osmosis_replication_timestamp matches Some(x) && x.spec_secs() == t),
            }
            &&& match req_int64(fs, 33) {
                None => h.osmosis_replication_sequence_number is None,
                Some(t) => t >= 0 && (h.osmosis_replication_sequence_number matches Some(x) && x.spec_seq() == t),
            }
            &&& (if spans_of(fs, 34).len() == 0 {
                h.osmosis_replication_base_url is None
            } else {
                h.osmosis_replication_base_url matches Some(u) && string_in(b, spans_of(fs, 34).last(), u@)
            })
        },
    }
}

/// Reads the HeaderBlock message `b[s..e]`; its strings borrow from `b`.
pub fn read_header_block<'a>(b: &'a [u8], s: usize, e: usize) -> (r: Result<HeaderBlock<'a>, BlobError>)
    requires
        s <= e <= b@.len(),
    ensures
        r matches Ok(h) ==> header_wire(b@, s as int, e as int, h),
        r is Err ==> r->Err_0 is InvalidFormat && forall|h: HeaderBlock| !header_wire(b@, s as int, e as int, h),
{
    let fs = match read_fields(b, s, e) {
        None => return Err(malformed("malformed header block")),
        Some(f) => f,
    };
    let sb = collect_spans(&fs, 1);
    proof {
        lemma_spans_within(fs@, 1, e as int);
        assert(span_ints(sb@).len() == sb@.len());
    }
    let bbox = if sb.len() == 0 {
        None
    } else {
        let (x, y) = sb[sb.len() - 1];
        proof {
            assert(span_ints(sb@)[sb@.len() - 1] == (x as int, y as int));
        }
        match read_bbox(b, x, y) {
            Ok(v) => Some(v),
            Err(err) => {
                assert forall|h: HeaderBlock| !header_wire(b@, s as int, e as int, h) by {
                    if header_wire(b@, s as int, e as int, h) {
                        assert(bbox_wire(b@, x as int, y as int, h.bbox->Some_0));
                    }
                }
                return Err(err);
            },
        }
    };
    let required_features = match get_strings(b, &fs, 4, e) {
        None => return Err(malformed("required feature is not UTF-8")),
        Some(v) => v,
    };
    let optional_features = match get_strings(b, &fs, 5, e) {
        None => return Err(malformed("optional feature is not UTF-8")),
        Some(v) => v,
    };
    let writing_program = match match get_last_str(b, &fs, 16, e) {
        Ok(v) => v,
        Err(err) => {
            assert forall|h: HeaderBlock| !header_wire(b@, s as int, e as int, h) by {
                if header_wire(b@, s as int, e as int, h) {
                    let sp = spans_of(field_ints(fs@), 16);
                    assert(!string_in(b@, sp.last(), h.writing_program@));
                }
            }
            return Err(err);
        },
    } {
        None => {
            let x = "";
            proof {
                reveal_strlit("");
                assert(x@ =~= Seq::<char>::empty());
            }
            x
        },
        Some(st) => st,
    };
    let source = match match get_last_str(b, &fs, 17, e) {
        Ok(v) => v,
        Err(err) => {
            assert forall|h: HeaderBlock| !header_wire(b@, s as int, e as int, h) by {
                if header_wire(b@, s as int, e as int, h) {
                    let sp = spans_of(field_ints(fs@), 17);
                    assert(!string_in(b@, sp.last(), h.source@));
                }
            }
            return Err(err);
        },
    } {
        None => {
            let x = "";
            proof {
                reveal_strlit("");
                assert(x@ =~= Seq::<char>::empty());
            }
            x
        },
        Some(st) => st,
    };
    let osmosis_replication_timestamp = match get_req_int64(&fs, 32) {
        None => None,
        Some(t) => match OsmosisReplicationTimestamp::new(t) {
            None => return Err(malformed("negative replication timestamp")),
            Some(x) => Some(x),
        },
    };
    let osmosis_replication_sequence_number = match get_req_int64(&fs, 33) {
        None => None,
        Some(t) => match OsmosisSequenceNumber::new(t) {
            None => return Err(malformed("negative replication sequence number")),
            Some(x) => Some(x),
        },
    };
    let osmosis_replication_base_url = match get_last_str(b, &fs, 34, e) {
        Ok(v) => v,
        Err(err) => {
            assert forall|h: HeaderBlock| !header_wire(b@, s as int, e as int, h) by {
                if header_wire(b@, s as int, e as int, h) {
                    let sp = spans_of(field_ints(fs@), 34);
                    assert(!string_in(b@, sp.last(), h.osmosis_replication_base_url->Some_0@));
                }
            }
            return Err(err);
        },
    };
    Ok(HeaderBlock {
        required_features,
        optional_features,
        writing_program,
        source,
        osmosis_replication_timestamp,
        osmosis_replication_sequence_number,
        osmosis_replication_base_url,
        bbox,
    })
}

} // verus!
