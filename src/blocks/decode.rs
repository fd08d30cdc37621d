//! The block decoder: coordinates from the block's frame, dense tag
//! streams, and delta-coded columns turned into elements.

use vstd::prelude::*;
use crate::blocks::delta::{delta_decode, fits_i64, ints, running_sums, lemma_running_sums_len};
use crate::blocks::primitives::{
    ChangeSet, DenseInfo, DenseNodes, Info, Node, PrimitiveBlock, PrimitiveGroup, Relation, Way,
};
use crate::io::reader::OsmElement;
use crate::io::blob::BlobError;

verus! {

/// Absolute nanodegrees of a stored coordinate.
pub open spec fn absolute(raw: int, granularity: int, offset: int) -> int {
    raw * granularity + offset
}

/// A value fits an `i64`.
pub open spec fn in_i64(v: int) -> bool {
    i64::MIN <= v <= i64::MAX
}

/// Turns a stored coordinate into nanodegrees: `raw * granularity + offset`;
/// a result outside `i64` is an error.
pub fn coordinate(raw: i64, granularity: i32, offset: i64) -> (r: Result<i64, BlobError>)
    ensures
        r is Ok <==> in_i64(absolute(raw as int, granularity as int, offset as int)),
        r matches Ok(v) ==> v == absolute(raw as int, granularity as int, offset as int),
        r matches Err(e) ==> e is DecodeError,
{
    assert(-0x8000_0000_0000_0000 * 0x8000_0000 <= (raw as int) * (granularity as int)
        <= 0x8000_0000_0000_0000 * 0x8000_0000) by (nonlinear_arith)
        requires
            -0x8000_0000_0000_0000 <= raw <= 0x7fff_ffff_ffff_ffff,
            -0x8000_0000 <= granularity <= 0x7fff_ffff,
    ;
    let wide: i128 = (raw as i128) * (granularity as i128) + (offset as i128);
    if wide < i64::MIN as i128 || wide > i64::MAX as i128 {
        return Err(BlobError::DecodeError("coordinate out of range".to_owned()));
    }
    Ok(wide as i64)
}

/// A string index that lies in a table of `table_len` entries.
pub open spec fn valid_sid(v: i32, table_len: int) -> bool {
    0 <= v < table_len
}

/// The tags of the node whose pairs start at `p`, added to `acc`, and the
/// position after its terminating 0; `None` when the stream ends first, a
/// key has no value, or an index leaves the table.
pub open spec fn node_tags_from(kv: Seq<i32>, p: int, t: int, acc: Seq<(u32, u32)>) -> Option<
    (Seq<(u32, u32)>, int),
>
    decreases kv.len() - p,
{
    if p < 0 || p >= kv.len() {
        None
    } else if kv[p] == 0 {
        Some((acc, p + 1))
    } else if p + 1 >= kv.len() || !valid_sid(kv[p], t) || !valid_sid(kv[p + 1], t) {
        None
    } else {
        node_tags_from(kv, p + 2, t, acc.push((kv[p] as u32, kv[p + 1] as u32)))
    }
}

/// The tags of `remaining` further nodes from `p` on, added to `acc`; the
/// stream must end right after the last terminator.
pub open spec fn dense_tags_from(
    kv: Seq<i32>,
    p: int,
    remaining: nat,
    t: int,
    acc: Seq<Seq<(u32, u32)>>,
) -> Option<Seq<Seq<(u32, u32)>>>
    decreases remaining,
{
    if remaining == 0 {
        if p == kv.len() {
            Some(acc)
        } else {
            None
        }
    } else {
        match node_tags_from(kv, p, t, Seq::empty()) {
            None => None,
            Some((tags, next)) => dense_tags_from(kv, next, (remaining - 1) as nat, t, acc.push(tags)),
        }
    }
}

/// The tags of each of `n` dense nodes: each node's pairs end with a 0,
/// so the stream holds exactly `n` terminators.
pub open spec fn dense_tags_spec(kv: Seq<i32>, n: nat, t: int) -> Option<Seq<Seq<(u32, u32)>>> {
    dense_tags_from(kv, 0, n, t, Seq::empty())
}

/// The tag lists of a column of nodes.
pub open spec fn tag_lists(s: Seq<Vec<(u32, u32)>>) -> Seq<Seq<(u32, u32)>> {
    s.map_values(|v: Vec<(u32, u32)>| v@)
}

/// A decoded tag stream has one list per node.
pub proof fn lemma_dense_tags_len(kv: Seq<i32>, p: int, remaining: nat, t: int, acc: Seq<Seq<(u32, u32)>>)
    ensures
        dense_tags_from(kv, p, remaining, t, acc) matches Some(s) ==> s.len() == acc.len() + remaining,
    decreases remaining,
{
    if remaining > 0 {
        match node_tags_from(kv, p, t, Seq::empty()) {
            None => {},
            Some((tags, next)) => lemma_dense_tags_len(kv, next, (remaining - 1) as nat, t, acc.push(tags)),
        }
    }
}

/// Reads the tags of the node whose pairs start at `p`.
fn node_tags(kv: &[i32], p: usize, table_len: usize) -> (r: Option<(Vec<(u32, u32)>, usize)>)
    ensures
        match node_tags_from(kv@, p as int, table_len as int, Seq::empty()) {
            None => r is None,
            Some((s, e)) => r is Some && r->Some_0.0@ == s && r->Some_0.1 == e,
        },
{
    let mut acc: Vec<(u32, u32)> = Vec::new();
    let mut pos = p;
    let n = kv.len();
    while pos < n
        invariant
            n == kv@.len(),
            node_tags_from(kv@, pos as int, table_len as int, acc@) == node_tags_from(
                kv@,
                p as int,
                table_len as int,
                Seq::empty(),
            ),
        decreases n - pos,
    {
        let k = kv[pos];
        if k == 0 {
            return Some((acc, pos + 1));
        }
        if pos + 1 >= n {
            return None;
        }
        let v = kv[pos + 1];
        if k < 0 || k as usize >= table_len || v < 0 || v as usize >= table_len {
            return None;
        }
        acc.push((k as u32, v as u32));
        pos = pos + 2;
    }
    None
}

/// The tag pairs of every one of `n` dense nodes, as string-table indices;
/// a missing terminator, a key without a value, an index outside the
/// table or data after the last terminator is an error.
pub fn dense_tags(keys_vals: &[i32], n: usize, table_len: usize) -> (r: Result<Vec<Vec<(u32, u32)>>, BlobError>)
    ensures
        match dense_tags_spec(keys_vals@, n as nat, table_len as int) {
            None => r is Err && r->Err_0 is DecodeError,
            Some(s) => r is Ok && tag_lists(r->Ok_0@) == s,
        },
{
    let mut out: Vec<Vec<(u32, u32)>> = Vec::new();
    let mut p: usize = 0;
    let mut i: usize = 0;
    assert(tag_lists(out@) =~= Seq::<Seq<(u32, u32)>>::empty());
    while i < n
        invariant
            i <= n,
            dense_tags_from(keys_vals@, p as int, (n - i) as nat, table_len as int, tag_lists(out@))
                == dense_tags_from(keys_vals@, 0, n as nat, table_len as int, Seq::empty()),
        decreases n - i,
    {
        match node_tags(keys_vals, p, table_len) {
            None => return Err(BlobError::DecodeError("dense tag stream lacks a terminator or has a bad index".to_owned())),
            Some((tags, next)) => {
                let ghost before = tag_lists(out@);
                let ghost old_out = out@;
                let ghost t = tags@;
                out.push(tags);
                assert(out@ == old_out.push(tags));
                assert(tag_lists(out@) =~= before.push(t));
                p = next;
            },
        }
        i = i + 1;
    }
    if p != keys_vals.len() {
        return Err(BlobError::DecodeError("dense tag stream runs past the last node".to_owned()));
    }
    Ok(out)
}

/// The keys of a tag list.
pub open spec fn tag_keys(t: Seq<(u32, u32)>) -> Seq<u32> {
    t.map_values(|p: (u32, u32)| p.0)
}

/// The values of a tag list.
pub open spec fn tag_vals(t: Seq<(u32, u32)>) -> Seq<u32> {
    t.map_values(|p: (u32, u32)| p.1)
}

/// The coordinate frame of a block: granularity and offsets.
#[derive(Debug, Clone, Copy, PartialEq, Eq)]
pub struct CoordFrame {
    pub granularity: i32,
    pub lat_offset: i64,
    pub lon_offset: i64,
}

/// Dense nodes decode: the columns agree in length, their running sums and
/// absolute coordinates fit `i64`, and the tag stream is well formed.
pub open spec fn dense_ok(d: DenseNodes, f: CoordFrame, t: int) -> bool {
    let n = d.id@.len();
    let lats = running_sums(ints(d.lat@));
    let lons = running_sums(ints(d.lon@));
    &&& d.lat@.len() == n
    &&& d.lon@.len() == n
    &&& fits_i64(running_sums(ints(d.id@)))
    &&& fits_i64(lats)
    &&& fits_i64(lons)
    &&& forall|i: int| 0 <= i < n ==> in_i64(absolute(#[trigger] lats[i], f.granularity as int, f.lat_offset as int))
    &&& forall|i: int| 0 <= i < n ==> in_i64(absolute(#[trigger] lons[i], f.granularity as int, f.lon_offset as int))
    &&& dense_tags_spec(d.keys_vals@, n, t) is Some
    &&& (d.denseinfo matches Some(di) ==> dense_info_ok(di, n as int))
}

/// Node `i` of the dense nodes: id and coordinates from running sums, the
/// coordinates made absolute, and its tags from the tag stream.
pub open spec fn dense_node(d: DenseNodes, f: CoordFrame, t: int, i: int, node: Node) -> bool {
    let tags = dense_tags_spec(d.keys_vals@, d.id@.len(), t)->Some_0[i];
    &&& node.id == running_sums(ints(d.id@))[i]
    &&& node.lat == absolute(running_sums(ints(d.lat@))[i], f.granularity as int, f.lat_offset as int)
    &&& node.lon == absolute(running_sums(ints(d.lon@))[i], f.granularity as int, f.lon_offset as int)
    &&& node.keys@ == tag_keys(tags)
    &&& node.vals@ == tag_vals(tags)
    &&& match d.denseinfo {
        None => node.info is None,
        Some(di) => node.info matches Some(info) && dense_info_at(di, i, info),
    }
}

/// Splits a tag list into its keys and its values.
fn split_tags(tags: &Vec<(u32, u32)>) -> (r: (Vec<u32>, Vec<u32>))
    ensures
        r.0@ == tag_keys(tags@),
        r.1@ == tag_vals(tags@),
{
    let mut keys: Vec<u32> = Vec::new();
    let mut vals: Vec<u32> = Vec::new();
    let mut i: usize = 0;
    while i < tags.len()
        invariant
            i <= tags@.len(),
            keys@ == tag_keys(tags@.take(i as int)),
            vals@ == tag_vals(tags@.take(i as int)),
        decreases tags@.len() - i,
    {
        let (k, v) = tags[i];
        proof {
            assert(tags@.take(i + 1) =~= tags@.take(i as int).push(tags@[i as int]));
        }
        keys.push(k);
        vals.push(v);
        proof {
            assert(keys@ =~= tag_keys(tags@.take(i + 1)));
            assert(vals@ =~= tag_vals(tags@.take(i + 1)));
        }
        i = i + 1;
    }
    proof {
        assert(tags@.take(i as int) =~= tags@);
    }
    (keys, vals)
}

/// A column of `i32` as integers.
pub open spec fn ints32(s: Seq<i32>) -> Seq<int> {
    s.map_values(|v: i32| v as int)
}

/// Widens a column of `i32` to `i64`.
fn widen(col: &[i32]) -> (r: Vec<i64>)
    ensures
        ints(r@) == ints32(col@),
{
    let mut out: Vec<i64> = Vec::new();
    let mut i: usize = 0;
    while i < col.len()
        invariant
            i <= col@.len(),
            ints(out@) == ints32(col@.take(i as int)),
        decreases col@.len() - i,
    {
        let ghost before = out@;
        out.push(col[i] as i64);
        proof {
            assert(col@.take(i + 1) =~= col@.take(i as int).push(col@[i as int]));
            assert(ints(out@) =~= ints(before).push(col@[i as int] as int));
            assert(ints(out@) =~= ints32(col@.take(i + 1)));
        }
        i = i + 1;
    }
    proof {
        assert(col@.take(i as int) =~= col@);
    }
    out
}

/// Entry `i` of a delta-coded column, or `default` when the column is empty.
pub open spec fn column_at(col: Seq<int>, i: int, default: int) -> int {
    if col.len() == 0 {
        default
    } else {
        running_sums(col)[i]
    }
}

/// A column holds no entry or one per node, its running sums fit `i64`, and
/// each entry used lies in `[lo, hi]`.
pub open spec fn column_ok(col: Seq<int>, n: int, lo: int, hi: int) -> bool {
    col.len() == 0 || (col.len() == n && fits_i64(running_sums(col)) && forall|i: int|
        0 <= i < n ==> lo <= #[trigger] running_sums(col)[i] <= hi)
}

/// Dense metadata decodes for `n` nodes.
pub open spec fn dense_info_ok(di: DenseInfo, n: int) -> bool {
    &&& column_ok(ints32(di.version@), n, i32::MIN as int, i32::MAX as int)
    &&& column_ok(ints(di.timestamp@), n, i64::MIN as int, i64::MAX as int)
    &&& column_ok(ints(di.changeset@), n, i64::MIN as int, i64::MAX as int)
    &&& column_ok(ints32(di.uid@), n, i32::MIN as int, i32::MAX as int)
    &&& column_ok(ints32(di.user_sid@), n, 0, u32::MAX as int)
    &&& (di.visible@.len() == 0 || di.visible@.len() == n)
}

/// The metadata of node `i`: each column decoded on its own, defaults for
/// empty columns, and visible unless stated otherwise.
pub open spec fn dense_info_at(di: DenseInfo, i: int, info: Info) -> bool {
    &&& info.version == column_at(ints32(di.version@), i, 0)
    &&& info.timestamp == column_at(ints(di.timestamp@), i, 0)
    &&& info.changeset == column_at(ints(di.changeset@), i, 0)
    &&& info.uid == column_at(ints32(di.uid@), i, 0)
    &&& info.user_sid == column_at(ints32(di.user_sid@), i, 0)
    &&& info.visible == (if di.visible@.len() == 0 { true } else { di.visible@[i] })
}

/// Decodes one delta-coded column whose entries must lie in `[lo, hi]`.
fn decode_column(col: &[i64], n: usize, lo: i64, hi: i64) -> (r: Result<Vec<i64>, BlobError>)
    ensures
        r is Ok <==> column_ok(ints(col@), n as int, lo as int, hi as int),
        r matches Ok(v) ==> (col@.len() == 0 ==> v@.len() == 0) && (col@.len() > 0 ==> ints(v@) == running_sums(ints(col@))),
        r matches Err(e) ==> e is DecodeError,
{
    if col.len() == 0 {
        return Ok(Vec::new());
    }
    if col.len() != n {
        return Err(BlobError::DecodeError("metadata column differs in length".to_owned()));
    }
    let v = delta_decode(col)?;
    proof {
        lemma_running_sums_len(ints(col@));
    }
    let mut i: usize = 0;
    while i < v.len()
        invariant
            ints(v@) == running_sums(ints(col@)),
            v@.len() == n,
            col@.len() == n,
            col@.len() > 0,
            i <= n,
            forall|j: int| 0 <= j < i ==> lo <= #[trigger] running_sums(ints(col@))[j] <= hi,
        decreases n - i,
    {
        assert(ints(v@)[i as int] == v@[i as int]);
        if v[i] < lo || v[i] > hi {
            assert(!(lo <= running_sums(ints(col@))[i as int] <= hi));
            return Err(BlobError::DecodeError("metadata value out of range".to_owned()));
        }
        i = i + 1;
    }
    Ok(v)
}

/// Expands dense metadata into one `Info` per node.
pub fn decode_dense_info(di: &DenseInfo, n: usize) -> (r: Result<Vec<Info>, BlobError>)
    ensures
        r is Ok <==> dense_info_ok(*di, n as int),
        r matches Ok(v) ==> v@.len() == n && forall|i: int| 0 <= i < n ==> dense_info_at(*di, i, #[trigger] v@[i]),
        r matches Err(e) ==> e is DecodeError,
{
    let version = decode_column(widen(di.version.as_slice()).as_slice(), n, i32::MIN as i64, i32::MAX as i64)?;
    let timestamp = decode_column(di.timestamp.as_slice(), n, i64::MIN, i64::MAX)?;
    let changeset = decode_column(di.changeset.as_slice(), n, i64::MIN, i64::MAX)?;
    let uid = decode_column(widen(di.uid.as_slice()).as_slice(), n, i32::MIN as i64, i32::MAX as i64)?;
    let user_sid = decode_column(widen(di.user_sid.as_slice()).as_slice(), n, 0, u32::MAX as i64)?;
    if di.visible.len() != 0 && di.visible.len() != n {
        return Err(BlobError::DecodeError("visible column differs in length".to_owned()));
    }
    proof {
        lemma_running_sums_len(ints32(di.version@));
        lemma_running_sums_len(ints(di.timestamp@));
        lemma_running_sums_len(ints(di.changeset@));
        lemma_running_sums_len(ints32(di.uid@));
        lemma_running_sums_len(ints32(di.user_sid@));
        assert(ints(version@).len() == version@.len());
        assert(ints(timestamp@).len() == timestamp@.len());
        assert(ints(changeset@).len() == changeset@.len());
        assert(ints(uid@).len() == uid@.len());
        assert(ints(user_sid@).len() == user_sid@.len());
    }
    let mut out: Vec<Info> = Vec::new();
    let mut i: usize = 0;
    while i < n
        invariant
            i <= n,
            out@.len() == i,
            dense_info_ok(*di, n as int),
            di.version@.len() == 0 ==> version@.len() == 0,
            di.version@.len() > 0 ==> ints(version@) == running_sums(ints32(di.version@)),
            di.version@.len() > 0 ==> version@.len() == n,
            di.timestamp@.len() == 0 ==> timestamp@.len() == 0,
            di.timestamp@.len() > 0 ==> ints(timestamp@) == running_sums(ints(di.timestamp@)),
            di.timestamp@.len() > 0 ==> timestamp@.len() == n,
            di.changeset@.len() == 0 ==> changeset@.len() == 0,
            di.changeset@.len() > 0 ==> ints(changeset@) == running_sums(ints(di.changeset@)),
            di.changeset@.len() > 0 ==> changeset@.len() == n,
            di.uid@.len() == 0 ==> uid@.len() == 0,
            di.uid@.len() > 0 ==> ints(uid@) == running_sums(ints32(di.uid@)),
            di.uid@.len() > 0 ==> uid@.len() == n,
            di.user_sid@.len() == 0 ==> user_sid@.len() == 0,
            di.user_sid@.len() > 0 ==> ints(user_sid@) == running_sums(ints32(di.user_sid@)),
            di.user_sid@.len() > 0 ==> user_sid@.len() == n,
            forall|j: int| 0 <= j < i ==> dense_info_at(*di, j, #[trigger] out@[j]),
        decreases n - i,
    {
        let v = if version.len() == 0 { 0i32 } else {
            assert(ints(version@)[i as int] == version@[i as int]);
            version[i] as i32
        };
        let ts = if timestamp.len() == 0 { 0i64 } else {
            assert(ints(timestamp@)[i as int] == timestamp@[i as int]);
            timestamp[i]
        };
        let cs = if changeset.len() == 0 { 0i64 } else {
            assert(ints(changeset@)[i as int] == changeset@[i as int]);
            changeset[i]
        };
        let u = if uid.len() == 0 { 0i32 } else {
            assert(ints(uid@)[i as int] == uid@[i as int]);
            uid[i] as i32
        };
        let s = if user_sid.len() == 0 { 0u32 } else {
            assert(ints(user_sid@)[i as int] == user_sid@[i as int]);
            user_sid[i] as u32
        };
        let vis = if di.visible.len() == 0 { true } else { di.visible[i] };
        out.push(Info { version: v, timestamp: ts, changeset: cs, uid: u, user_sid: s, visible: vis });
        i = i + 1;
    }
    Ok(out)
}

/// Expands dense nodes into nodes, in stored order.
pub fn decode_dense(d: &DenseNodes, f: CoordFrame, table_len: usize) -> (r: Result<Vec<Node>, BlobError>)
    ensures
        r is Ok <==> dense_ok(*d, f, table_len as int),
        r matches Ok(nodes) ==> nodes@.len() == d.id@.len() && forall|i: int|
            0 <= i < nodes@.len() ==> dense_node(*d, f, table_len as int, i, #[trigger] nodes@[i]),
        r matches Err(e) ==> e is DecodeError,
{
    let n = d.id.len();
    if d.lat.len() != n || d.lon.len() != n {
        return Err(BlobError::DecodeError("dense columns differ in length".to_owned()));
    }
    let ids = delta_decode(d.id.as_slice())?;
    let lats = delta_decode(d.lat.as_slice())?;
    let lons = delta_decode(d.lon.as_slice())?;
    let tags = dense_tags(d.keys_vals.as_slice(), n, table_len)?;
    let infos: Option<Vec<Info>> = match &d.denseinfo {
        None => None,
        Some(di) => Some(decode_dense_info(di, n)?),
    };
    proof {
        lemma_running_sums_len(ints(d.id@));
        lemma_running_sums_len(ints(d.lat@));
        lemma_running_sums_len(ints(d.lon@));
        assert(ints(ids@).len() == ids@.len());
        assert(ints(lats@).len() == lats@.len());
        assert(ints(lons@).len() == lons@.len());
        assert(tag_lists(tags@).len() == tags@.len());
        lemma_dense_tags_len(d.keys_vals@, 0, n as nat, table_len as int, Seq::empty());
    }
    let mut out: Vec<Node> = Vec::new();
    let mut i: usize = 0;
    while i < n
        invariant
            n == d.id@.len(),
            n == d.lat@.len(),
            n == d.lon@.len(),
            ids@.len() == n,
            lats@.len() == n,
            lons@.len() == n,
            tags@.len() == n,
            ints(ids@) == running_sums(ints(d.id@)),
            ints(lats@) == running_sums(ints(d.lat@)),
            ints(lons@) == running_sums(ints(d.lon@)),
            fits_i64(running_sums(ints(d.id@))),
            fits_i64(running_sums(ints(d.lat@))),
            fits_i64(running_sums(ints(d.lon@))),
            dense_tags_spec(d.keys_vals@, n as nat, table_len as int) == Some(tag_lists(tags@)),
            i <= n,
            out@.len() == i,
            d.denseinfo is None ==> infos is None,
            d.denseinfo matches Some(di) ==> infos matches Some(v) && v@.len() == n && forall|j: int|
                0 <= j < n ==> dense_info_at(di, j, #[trigger] v@[j]),
            forall|j: int| 0 <= j < i ==> in_i64(absolute(running_sums(ints(d.lat@))[j], f.granularity as int, f.lat_offset as int)),
            forall|j: int| 0 <= j < i ==> in_i64(absolute(running_sums(ints(d.lon@))[j], f.granularity as int, f.lon_offset as int)),
            forall|j: int| 0 <= j < i ==> dense_node(*d, f, table_len as int, j, #[trigger] out@[j]),
        decreases n - i,
    {
        assert(ints(lats@)[i as int] == lats@[i as int] as int);
        assert(ints(lons@)[i as int] == lons@[i as int] as int);
        assert(ints(ids@)[i as int] == ids@[i as int] as int);
        let lat = match coordinate(lats[i], f.granularity, f.lat_offset) {
            Ok(v) => v,
            Err(e) => return Err(e),
        };
        let lon = match coordinate(lons[i], f.granularity, f.lon_offset) {
            Ok(v) => v,
            Err(e) => return Err(e),
        };
        let (keys, vals) = split_tags(&tags[i]);
        assert(tag_lists(tags@)[i as int] == tags@[i as int]@);
        let info = match &infos {
            None => None,
            Some(v) => Some(v[i]),
        };
        let node = Node { id: ids[i], keys, vals, info, lat, lon };
        out.push(node);
        i = i + 1;
    }
    Ok(out)
}

/// A copy of a vector of plain values.
pub fn copy_vec<T: Copy>(v: &Vec<T>) -> (r: Vec<T>)
    ensures
        r@ == v@,
{
    let mut out: Vec<T> = Vec::new();
    let mut i: usize = 0;
    while i < v.len()
        invariant
            i <= v@.len(),
            out@ == v@.take(i as int),
        decreases v@.len() - i,
    {
        out.push(v[i]);
        proof {
            assert(out@ =~= v@.take(i + 1));
        }
        i = i + 1;
    }
    proof {
        assert(v@.take(i as int) =~= v@);
    }
    out
}

/// Tags as parallel key and value indices: equal lengths, every index in
/// the table.
pub open spec fn tags_ok(keys: Seq<u32>, vals: Seq<u32>, t: int) -> bool {
    &&& keys.len() == vals.len()
    &&& forall|i: int| 0 <= i < keys.len() ==> (#[trigger] keys[i] as int) < t
    &&& forall|i: int| 0 <= i < vals.len() ==> (#[trigger] vals[i] as int) < t
}

/// Checks parallel tag columns against a table of `table_len` entries.
pub fn check_tags(keys: &Vec<u32>, vals: &Vec<u32>, table_len: usize) -> (r: Result<(), BlobError>)
    ensures
        r is Ok <==> tags_ok(keys@, vals@, table_len as int),
        r matches Err(e) ==> e is DecodeError,
{
    if keys.len() != vals.len() {
        return Err(BlobError::DecodeError("tag keys and values differ in length".to_owned()));
    }
    let mut i: usize = 0;
    while i < keys.len()
        invariant
            keys@.len() == vals@.len(),
            i <= keys@.len(),
            forall|j: int| 0 <= j < i ==> (#[trigger] keys@[j] as int) < table_len,
            forall|j: int| 0 <= j < i ==> (#[trigger] vals@[j] as int) < table_len,
        decreases keys@.len() - i,
    {
        if keys[i] as usize >= table_len || vals[i] as usize >= table_len {
            return Err(BlobError::DecodeError("string index outside the table".to_owned()));
        }
        i = i + 1;
    }
    Ok(())
}

/// A stored node decodes: tags in the table, absolute coordinates in `i64`.
pub open spec fn node_ok(n: Node, f: CoordFrame, t: int) -> bool {
    &&& tags_ok(n.keys@, n.vals@, t)
    &&& in_i64(absolute(n.lat as int, f.granularity as int, f.lat_offset as int))
    &&& in_i64(absolute(n.lon as int, f.granularity as int, f.lon_offset as int))
}

/// The decoded form of a stored node: coordinates made absolute.
pub open spec fn node_out(n: Node, f: CoordFrame, out: Node) -> bool {
    &&& out.id == n.id
    &&& out.keys@ == n.keys@
    &&& out.vals@ == n.vals@
    &&& out.info == n.info
    &&& out.lat == absolute(n.lat as int, f.granularity as int, f.lat_offset as int)
    &&& out.lon == absolute(n.lon as int, f.granularity as int, f.lon_offset as int)
}

/// Decodes a stored node.
pub fn decode_node(n: &Node, f: CoordFrame, table_len: usize) -> (r: Result<Node, BlobError>)
    ensures
        r is Ok <==> node_ok(*n, f, table_len as int),
        r matches Ok(x) ==> node_out(*n, f, x),
        r matches Err(e) ==> e is DecodeError,
{
    check_tags(&n.keys, &n.vals, table_len)?;
    let lat = coordinate(n.lat, f.granularity, f.lat_offset)?;
    let lon = coordinate(n.lon, f.granularity, f.lon_offset)?;
    Ok(Node { id: n.id, keys: copy_vec(&n.keys), vals: copy_vec(&n.vals), info: n.info, lat, lon })
}

/// A stored way decodes: tags in the table, node ids' running sums in `i64`.
pub open spec fn way_ok(w: Way, t: int) -> bool {
    tags_ok(w.keys@, w.vals@, t) && fits_i64(running_sums(ints(w.refs@)))
}

/// The decoded form of a stored way: node ids from running sums.
pub open spec fn way_out(w: Way, out: Way) -> bool {
    &&& out.id == w.id
    &&& out.keys@ == w.keys@
    &&& out.vals@ == w.vals@
    &&& out.info == w.info
    &&& ints(out.refs@) == running_sums(ints(w.refs@))
}

/// Decodes a stored way.
pub fn decode_way(w: &Way, table_len: usize) -> (r: Result<Way, BlobError>)
    ensures
        r is Ok <==> way_ok(*w, table_len as int),
        r matches Ok(x) ==> way_out(*w, x),
        r matches Err(e) ==> e is DecodeError,
{
    check_tags(&w.keys, &w.vals, table_len)?;
    let refs = delta_decode(w.refs.as_slice())?;
    Ok(Way { id: w.id, keys: copy_vec(&w.keys), vals: copy_vec(&w.vals), info: w.info, refs })
}

/// A stored relation decodes: tags and roles in the table, member columns
/// of one length, member ids' running sums in `i64`.
pub open spec fn relation_ok(r: Relation, t: int) -> bool {
    &&& tags_ok(r.keys@, r.vals@, t)
    &&& r.roles_sid@.len() == r.memids@.len()
    &&& r.types@.len() == r.memids@.len()
    &&& forall|i: int| 0 <= i < r.roles_sid@.len() ==> valid_sid(#[trigger] r.roles_sid@[i], t)
    &&& fits_i64(running_sums(ints(r.memids@)))
}

/// The decoded form of a stored relation: member ids from running sums.
pub open spec fn relation_out(r: Relation, out: Relation) -> bool {
    &&& out.id == r.id
    &&& out.keys@ == r.keys@
    &&& out.vals@ == r.vals@
    &&& out.info == r.info
    &&& out.roles_sid@ == r.roles_sid@
    &&& out.types@ == r.types@
    &&& ints(out.memids@) == running_sums(ints(r.memids@))
}

/// Decodes a stored relation.
pub fn decode_relation(r: &Relation, table_len: usize) -> (res: Result<Relation, BlobError>)
    ensures
        res is Ok <==> relation_ok(*r, table_len as int),
        res matches Ok(x) ==> relation_out(*r, x),
        res matches Err(e) ==> e is DecodeError,
{
    check_tags(&r.keys, &r.vals, table_len)?;
    if r.roles_sid.len() != r.memids.len() || r.types.len() != r.memids.len() {
        return Err(BlobError::DecodeError("relation member columns differ in length".to_owned()));
    }
    let mut i: usize = 0;
    while i < r.roles_sid.len()
        invariant
            i <= r.roles_sid@.len(),
            forall|j: int| 0 <= j < i ==> valid_sid(#[trigger] r.roles_sid@[j], table_len as int),
        decreases r.roles_sid@.len() - i,
    {
        let role = r.roles_sid[i];
        if role < 0 || role as usize >= table_len {
            return Err(BlobError::DecodeError("role index outside the table".to_owned()));
        }
        i = i + 1;
    }
    let memids = delta_decode(r.memids.as_slice())?;
    Ok(Relation {
        id: r.id,
        keys: copy_vec(&r.keys),
        vals: copy_vec(&r.vals),
        info: r.info,
        roles_sid: copy_vec(&r.roles_sid),
        memids,
        types: copy_vec(&r.types),
    })
}

/// Decodes a stored changeset: its tags must lie in the table.
pub fn decode_changeset(c: &ChangeSet, table_len: usize) -> (r: Result<ChangeSet, BlobError>)
    ensures
        r is Ok <==> tags_ok(c.keys@, c.vals@, table_len as int),
        r matches Ok(x) ==> x.id == c.id && x.keys@ == c.keys@ && x.vals@ == c.vals@ && x.info == c.info,
        r matches Err(e) ==> e is DecodeError,
{
    check_tags(&c.keys, &c.vals, table_len)?;
    Ok(ChangeSet { id: c.id, keys: copy_vec(&c.keys), vals: copy_vec(&c.vals), info: c.info })
}

/// Number of dense nodes of a group.
pub open spec fn dense_count(g: PrimitiveGroup) -> int {
    match g.dense {
        Some(d) => d.id@.len() as int,
        None => 0,
    }
}

/// Every element of the group decodes.
pub open spec fn group_ok(g: PrimitiveGroup, f: CoordFrame, t: int) -> bool {
    &&& (g.dense matches Some(d) ==> dense_ok(d, f, t))
    &&& forall|i: int| 0 <= i < g.nodes@.len() ==> node_ok(#[trigger] g.nodes@[i], f, t)
    &&& forall|i: int| 0 <= i < g.ways@.len() ==> way_ok(#[trigger] g.ways@[i], t)
    &&& forall|i: int| 0 <= i < g.relations@.len() ==> relation_ok(#[trigger] g.relations@[i], t)
    &&& forall|i: int| 0 <= i < g.changesets@.len() ==> tags_ok(#[trigger] g.changesets@[i].keys@, g.changesets@[i].vals@, t)
}

/// The element is dense node `i`, decoded.
pub open spec fn dense_el(e: OsmElement, d: DenseNodes, f: CoordFrame, t: int, i: int) -> bool {
    match e {
        OsmElement::Node(x) => dense_node(d, f, t, i, x),
        _ => false,
    }
}

/// The element is the stored node `n`, decoded.
pub open spec fn node_el(e: OsmElement, n: Node, f: CoordFrame) -> bool {
    match e {
        OsmElement::Node(x) => node_out(n, f, x),
        _ => false,
    }
}

/// The element is the stored way `w`, decoded.
pub open spec fn way_el(e: OsmElement, w: Way) -> bool {
    match e {
        OsmElement::Way(x) => way_out(w, x),
        _ => false,
    }
}

/// The element is the stored relation `r`, decoded.
pub open spec fn relation_el(e: OsmElement, r: Relation) -> bool {
    match e {
        OsmElement::Relation(x) => relation_out(r, x),
        _ => false,
    }
}

/// The element is the stored changeset `c`.
pub open spec fn changeset_el(e: OsmElement, c: ChangeSet) -> bool {
    match e {
        OsmElement::ChangeSet(x) => x.id == c.id && x.keys@ == c.keys@ && x.vals@ == c.vals@
            && x.info == c.info,
        _ => false,
    }
}

/// `out` holds the group's elements in emission order: dense nodes, then
/// nodes, ways, relations and changesets, each in stored order.
pub open spec fn group_decodes(g: PrimitiveGroup, f: CoordFrame, t: int, out: Seq<OsmElement>) -> bool {
    let nd = dense_count(g);
    let nn = g.nodes@.len() as int;
    let nw = g.ways@.len() as int;
    let nr = g.relations@.len() as int;
    let nc = g.changesets@.len() as int;
    &&& out.len() == nd + nn + nw + nr + nc
    &&& forall|i: int| 0 <= i < nd ==> dense_el(#[trigger] out[i], g.dense->Some_0, f, t, i)
    &&& forall|i: int| 0 <= i < nn ==> node_el(#[trigger] out[nd + i], g.nodes@[i], f)
    &&& forall|i: int| 0 <= i < nw ==> way_el(#[trigger] out[nd + nn + i], g.ways@[i])
    &&& forall|i: int| 0 <= i < nr ==> relation_el(#[trigger] out[nd + nn + nw + i], g.relations@[i])
    &&& forall|i: int| 0 <= i < nc ==> changeset_el(#[trigger] out[nd + nn + nw + nr + i], g.changesets@[i])
}

/// The same values in reverse order.
pub fn reversed<T>(v: Vec<T>) -> (r: Vec<T>)
    ensures
        r@.len() == v@.len(),
        forall|i: int| 0 <= i < v@.len() ==> #[trigger] r@[i] == v@[v@.len() - 1 - i],
{
    let ghost orig = v@;
    let mut v = v;
    let mut out: Vec<T> = Vec::new();
    while v.len() > 0
        invariant
            v@.len() + out@.len() == orig.len(),
            v@ == orig.take(v@.len() as int),
            forall|i: int| 0 <= i < out@.len() ==> #[trigger] out@[i] == orig[orig.len() - 1 - i],
        decreases v@.len(),
    {
        let ghost before = v@;
        let x = v.pop().unwrap();
        proof {
            assert(v@ =~= orig.take(v@.len() as int));
        }
        out.push(x);
    }
    out
}

/// Wraps each node as an element, keeping their order.
fn wrap_nodes(v: Vec<Node>) -> (r: Vec<OsmElement>)
    ensures
        r@.len() == v@.len(),
        forall|i: int| 0 <= i < v@.len() ==> #[trigger] r@[i] == OsmElement::Node(v@[i]),
{
    let ghost orig = v@;
    let mut v = reversed(v);
    let mut out: Vec<OsmElement> = Vec::new();
    while v.len() > 0
        invariant
            v@.len() + out@.len() == orig.len(),
            forall|i: int| 0 <= i < v@.len() ==> #[trigger] v@[i] == orig[orig.len() - 1 - i],
            forall|i: int| 0 <= i < out@.len() ==> #[trigger] out@[i] == OsmElement::Node(orig[i]),
        decreases v@.len(),
    {
        let x = v.pop().unwrap();
        out.push(OsmElement::Node(x));
    }
    out
}

/// Wraps each way as an element, keeping their order.
fn wrap_ways(v: Vec<Way>) -> (r: Vec<OsmElement>)
    ensures
        r@.len() == v@.len(),
        forall|i: int| 0 <= i < v@.len() ==> #[trigger] r@[i] == OsmElement::Way(v@[i]),
{
    let ghost orig = v@;
    let mut v = reversed(v);
    let mut out: Vec<OsmElement> = Vec::new();
    while v.len() > 0
        invariant
            v@.len() + out@.len() == orig.len(),
            forall|i: int| 0 <= i < v@.len() ==> #[trigger] v@[i] == orig[orig.len() - 1 - i],
            forall|i: int| 0 <= i < out@.len() ==> #[trigger] out@[i] == OsmElement::Way(orig[i]),
        decreases v@.len(),
    {
        let x = v.pop().unwrap();
        out.push(OsmElement::Way(x));
    }
    out
}

/// Wraps each relation as an element, keeping their order.
fn wrap_relations(v: Vec<Relation>) -> (r: Vec<OsmElement>)
    ensures
        r@.len() == v@.len(),
        forall|i: int| 0 <= i < v@.len() ==> #[trigger] r@[i] == OsmElement::Relation(v@[i]),
{
    let ghost orig = v@;
    let mut v = reversed(v);
    let mut out: Vec<OsmElement> = Vec::new();
    while v.len() > 0
        invariant
            v@.len() + out@.len() == orig.len(),
            forall|i: int| 0 <= i < v@.len() ==> #[trigger] v@[i] == orig[orig.len() - 1 - i],
            forall|i: int| 0 <= i < out@.len() ==> #[trigger] out@[i] == OsmElement::Relation(orig[i]),
        decreases v@.len(),
    {
        let x = v.pop().unwrap();
        out.push(OsmElement::Relation(x));
    }
    out
}

/// Wraps each changeset as an element, keeping their order.
fn wrap_changesets(v: Vec<ChangeSet>) -> (r: Vec<OsmElement>)
    ensures
        r@.len() == v@.len(),
        forall|i: int| 0 <= i < v@.len() ==> #[trigger] r@[i] == OsmElement::ChangeSet(v@[i]),
{
    let ghost orig = v@;
    let mut v = reversed(v);
    let mut out: Vec<OsmElement> = Vec::new();
    while v.len() > 0
        invariant
            v@.len() + out@.len() == orig.len(),
            forall|i: int| 0 <= i < v@.len() ==> #[trigger] v@[i] == orig[orig.len() - 1 - i],
            forall|i: int| 0 <= i < out@.len() ==> #[trigger] out@[i] == OsmElement::ChangeSet(orig[i]),
        decreases v@.len(),
    {
        let x = v.pop().unwrap();
        out.push(OsmElement::ChangeSet(x));
    }
    out
}

/// Appends `more` to `out`.
fn append_elements(out: &mut Vec<OsmElement>, more: Vec<OsmElement>)
    ensures
        final(out)@ == old(out)@ + more@,
{
    let mut more = more;
    out.append(&mut more);
}

/// Decodes a group into its elements, in emission order.
pub fn decode_group(g: &PrimitiveGroup, f: CoordFrame, table_len: usize) -> (r: Result<Vec<OsmElement>, BlobError>)
    ensures
        r is Ok <==> group_ok(*g, f, table_len as int),
        r matches Ok(v) ==> group_decodes(*g, f, table_len as int, v@),
        r matches Err(e) ==> e is DecodeError,
{
    let ghost t = table_len as int;
    let mut out: Vec<OsmElement> = Vec::new();
    match &g.dense {
        None => {},
        Some(d) => {
            let nodes = decode_dense(d, f, table_len)?;
            out = wrap_nodes(nodes);
        },
    }
    let ghost nd = out@.len() as int;
    assert(nd == dense_count(*g));

    let mut nodes: Vec<Node> = Vec::new();
    let mut i: usize = 0;
    while i < g.nodes.len()
        invariant
            t == table_len as int,
            i <= g.nodes@.len(),
            nodes@.len() == i,
            forall|j: int| 0 <= j < i ==> node_ok(#[trigger] g.nodes@[j], f, t),
            forall|j: int| 0 <= j < i ==> node_out(g.nodes@[j], f, #[trigger] nodes@[j]),
        decreases g.nodes@.len() - i,
    {
        let x = decode_node(&g.nodes[i], f, table_len)?;
        nodes.push(x);
        i = i + 1;
    }
    let mut ways: Vec<Way> = Vec::new();
    let mut i: usize = 0;
    while i < g.ways.len()
        invariant
            t == table_len as int,
            i <= g.ways@.len(),
            ways@.len() == i,
            forall|j: int| 0 <= j < i ==> way_ok(#[trigger] g.ways@[j], t),
            forall|j: int| 0 <= j < i ==> way_out(g.ways@[j], #[trigger] ways@[j]),
        decreases g.ways@.len() - i,
    {
        let x = decode_way(&g.ways[i], table_len)?;
        ways.push(x);
        i = i + 1;
    }
    let mut relations: Vec<Relation> = Vec::new();
    let mut i: usize = 0;
    while i < g.relations.len()
        invariant
            t == table_len as int,
            i <= g.relations@.len(),
            relations@.len() == i,
            forall|j: int| 0 <= j < i ==> relation_ok(#[trigger] g.relations@[j], t),
            forall|j: int| 0 <= j < i ==> relation_out(g.relations@[j], #[trigger] relations@[j]),
        decreases g.relations@.len() - i,
    {
        let x = decode_relation(&g.relations[i], table_len)?;
        relations.push(x);
        i = i + 1;
    }
    let mut changesets: Vec<ChangeSet> = Vec::new();
    let mut i: usize = 0;
    while i < g.changesets.len()
        invariant
            t == table_len as int,
            i <= g.changesets@.len(),
            changesets@.len() == i,
            forall|j: int| 0 <= j < i ==> tags_ok(#[trigger] g.changesets@[j].keys@, g.changesets@[j].vals@, t),
            forall|j: int| 0 <= j < i ==> (#[trigger] changesets@[j]).id == g.changesets@[j].id
                && changesets@[j].keys@ == g.changesets@[j].keys@
                && changesets@[j].vals@ == g.changesets@[j].vals@
                && changesets@[j].info == g.changesets@[j].info,
        decreases g.changesets@.len() - i,
    {
        let x = decode_changeset(&g.changesets[i], table_len)?;
        changesets.push(x);
        i = i + 1;
    }
    let ghost o0 = out@;
    let wn = wrap_nodes(nodes);
    let ww = wrap_ways(ways);
    let wr = wrap_relations(relations);
    let wc = wrap_changesets(changesets);
    let ghost (sn, sw, sr, sc) = (wn@, ww@, wr@, wc@);
    append_elements(&mut out, wn);
    append_elements(&mut out, ww);
    append_elements(&mut out, wr);
    append_elements(&mut out, wc);
    proof {
        assert(out@ == o0 + sn + sw + sr + sc);
        let nn = g.nodes@.len() as int;
        let nw = g.ways@.len() as int;
        let nr = g.relations@.len() as int;
        assert forall|i: int| 0 <= i < nn implies node_el(#[trigger] out@[nd + i], g.nodes@[i], f) by {
            assert(out@[nd + i] == sn[i]);
        }
        assert forall|i: int| 0 <= i < nw implies way_el(#[trigger] out@[nd + nn + i], g.ways@[i]) by {
            assert(out@[nd + nn + i] == sw[i]);
        }
        assert forall|i: int| 0 <= i < nr implies relation_el(#[trigger] out@[nd + nn + nw + i], g.relations@[i]) by {
            assert(out@[nd + nn + nw + i] == sr[i]);
        }
        assert forall|i: int| 0 <= i < g.changesets@.len() implies changeset_el(#[trigger] out@[nd + nn + nw + nr + i], g.changesets@[i]) by {
            assert(out@[nd + nn + nw + nr + i] == sc[i]);
        }
        assert forall|i: int| 0 <= i < nd implies dense_el(#[trigger] out@[i], g.dense->Some_0, f, t, i) by {
            assert(out@[i] == o0[i]);
        }
    }
    Ok(out)
}

/// The coordinate frame of a block.
pub open spec fn frame_of(b: PrimitiveBlock) -> CoordFrame {
    CoordFrame { granularity: b.granularity, lat_offset: b.lat_offset, lon_offset: b.lon_offset }
}

/// `out` is the groups' elements, group after group.
pub open spec fn groups_decode(groups: Seq<PrimitiveGroup>, f: CoordFrame, t: int, out: Seq<OsmElement>) -> bool
    decreases groups.len(),
{
    if groups.len() == 0 {
        out.len() == 0
    } else {
        exists|k: int|
            0 <= k <= out.len() && groups_decode(groups.drop_last(), f, t, #[trigger] out.take(k))
                && group_decodes(groups.last(), f, t, out.skip(k))
    }
}

/// Decodes a primitive block into its elements: groups in stored order,
/// each in emission order, with the block's own coordinate frame and
/// string table.
pub fn decode_block(block: &PrimitiveBlock) -> (r: Result<Vec<OsmElement>, BlobError>)
    ensures
        r is Ok <==> forall|i: int| 0 <= i < block.primitivegroup@.len() ==> group_ok(
            #[trigger] block.primitivegroup@[i],
            frame_of(*block),
            block.stringtable.s@.len() as int,
        ),
        r matches Ok(v) ==> groups_decode(block.primitivegroup@, frame_of(*block), block.stringtable.s@.len() as int, v@),
        r matches Err(e) ==> e is DecodeError,
{
    let f = CoordFrame { granularity: block.granularity, lat_offset: block.lat_offset, lon_offset: block.lon_offset };
    let table_len = block.stringtable.len();
    let groups = &block.primitivegroup;
    let mut out: Vec<OsmElement> = Vec::new();
    let mut i: usize = 0;
    proof {
        assert(groups@.take(0) =~= Seq::<PrimitiveGroup>::empty());
    }
    while i < groups.len()
        invariant
            f == frame_of(*block),
            table_len == block.stringtable.s@.len(),
            groups == &block.primitivegroup,
            i <= groups@.len(),
            forall|j: int| 0 <= j < i ==> group_ok(#[trigger] groups@[j], f, table_len as int),
            groups_decode(groups@.take(i as int), f, table_len as int, out@),
        decreases groups@.len() - i,
    {
        let more = decode_group(&groups[i], f, table_len)?;
        let ghost before = out@;
        let ghost m = more@;
        append_elements(&mut out, more);
        proof {
            let gs = groups@.take(i + 1);
            assert(gs.drop_last() =~= groups@.take(i as int));
            assert(gs.last() == groups@[i as int]);
            let k = before.len() as int;
            assert(out@.take(k) =~= before);
            assert(out@.skip(k) =~= m);
            assert(groups_decode(gs, f, table_len as int, out@));
        }
        i = i + 1;
    }
    proof {
        assert(groups@.take(i as int) =~= groups@);
    }
    Ok(out)
}

/// Every decoded dense node sits at `raw · granularity + lat_offset`, so
/// when every such value lies in the latitude band, so does every node.
pub proof fn lemma_dense_latitudes_in_band(d: DenseNodes, f: CoordFrame, t: int, nodes: Seq<Node>)
    requires
        nodes.len() == d.id@.len(),
        forall|i: int| 0 <= i < nodes.len() ==> dense_node(d, f, t, i, #[trigger] nodes[i]),
        forall|i: int| 0 <= i < nodes.len() ==> crate::blocks::nano_degree::is_lat(
            absolute(#[trigger] running_sums(ints(d.lat@))[i], f.granularity as int, f.lat_offset as int),
        ),
    ensures
        forall|i: int| 0 <= i < nodes.len() ==> crate::blocks::nano_degree::is_lat(#[trigger] nodes[i].lat as int),
{
    assert forall|i: int| 0 <= i < nodes.len() implies crate::blocks::nano_degree::is_lat(#[trigger] nodes[i].lat as int) by {
        assert(dense_node(d, f, t, i, nodes[i]));
        let _x = running_sums(ints(d.lat@))[i];
    }
}

} // verus!
