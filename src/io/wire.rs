//! The subset of the protocol-buffer wire format that the file layer reads:
//! varints, field keys, and length-delimited fields.

use vstd::prelude::*;

verus! {

/// Longest varint, in bytes.
pub const MAX_VARINT_LEN: usize = 10;

/// `128^k`.
pub open spec fn radix(k: nat) -> int
    decreases k,
{
    if k == 0 {
        1
    } else {
        128 * radix((k - 1) as nat)
    }
}

/// The varint at `pos` if it ends within `k` bytes: its value and the
/// position just past it.
pub open spec fn varint_at(b: Seq<u8>, pos: int, k: nat) -> Option<(int, int)>
    decreases k,
{
    if k == 0 || pos < 0 || pos >= b.len() {
        None
    } else if b[pos] < 128 {
        Some((b[pos] as int, pos + 1))
    } else {
        match varint_at(b, pos + 1, (k - 1) as nat) {
            Some((v, e)) => Some(((b[pos] - 128) + 128 * v, e)),
            None => None,
        }
    }
}

/// The value of the varint at `pos`, 0 where there is none.
pub open spec fn varint_value(b: Seq<u8>, pos: int, k: nat) -> int {
    match varint_at(b, pos, k) {
        Some((v, _)) => v,
        None => 0,
    }
}

/// The position just past the varint at `pos`, `pos` where there is none.
pub open spec fn varint_end(b: Seq<u8>, pos: int, k: nat) -> int {
    match varint_at(b, pos, k) {
        Some((_, e)) => e,
        None => pos,
    }
}

/// A varint that ends within `k` bytes is below `128^k` and ends after `pos`.
pub proof fn lemma_varint_bounds(b: Seq<u8>, pos: int, k: nat)
    requires
        varint_at(b, pos, k) is Some,
    ensures
        0 <= varint_value(b, pos, k) < radix(k),
        pos < varint_end(b, pos, k) <= b.len(),
        varint_end(b, pos, k) <= pos + k,
    decreases k,
{
    lemma_radix_positive(k);
    if b[pos] >= 128 {
        lemma_radix_positive((k - 1) as nat);
        lemma_varint_bounds(b, pos + 1, (k - 1) as nat);
        let v = varint_value(b, pos + 1, (k - 1) as nat);
        assert(0 <= (b[pos] - 128) + 128 * v < radix(k)) by (nonlinear_arith)
            requires
                0 <= v < radix((k - 1) as nat),
                128 <= b[pos] < 256,
                radix(k) == 128 * radix((k - 1) as nat),
        ;
    }
}

/// Reads the varint at `pos`, at most `k` bytes long.
fn read_varint(b: &[u8], pos: usize, k: usize) -> (r: Option<(u128, usize)>)
    requires
        k <= MAX_VARINT_LEN,
    ensures
        match varint_at(b@, pos as int, k as nat) {
            None => r is None,
            Some((v, e)) => r == Some((v as u128, e as usize)),
        },
    decreases k,
{
    if k == 0 || pos >= b.len() {
        return None;
    }
    let byte = b[pos];
    if byte < 128 {
        return Some((byte as u128, pos + 1));
    }
    match read_varint(b, pos + 1, k - 1) {
        None => None,
        Some((v, e)) => {
            proof {
                lemma_varint_bounds(b@, pos as int, k as nat);
                lemma_varint_bounds(b@, pos + 1, (k - 1) as nat);
                lemma_radix_bound(k as nat);
                lemma_radix_bound((k - 1) as nat);
                assert(radix((k - 1) as nat) * 128 == radix(k as nat));
            }
            Some(((byte - 128) as u128 + 128 * v, e))
        },
    }
}

/// `128^k` is at least 1, and at least 128 from `k = 1` on.
pub proof fn lemma_radix_positive(k: nat)
    ensures
        radix(k) >= 1,
        k >= 1 ==> radix(k) >= 128,
    decreases k,
{
    if k > 0 {
        lemma_radix_positive((k - 1) as nat);
    }
}

/// `128^k` grows with `k`, up to `128^10 = 2^70`.
pub proof fn lemma_radix_bound(k: nat)
    requires
        k <= MAX_VARINT_LEN,
    ensures
        1 <= radix(k) <= radix(MAX_VARINT_LEN as nat),
        radix(MAX_VARINT_LEN as nat) == 0x40_0000_0000_0000_0000,
    decreases MAX_VARINT_LEN - k,
{
    reveal_with_fuel(radix, 11);
    if k < MAX_VARINT_LEN {
        lemma_radix_bound(k + 1);
    }
}

/// Largest value of a 64-bit varint, plus one.
pub open spec fn two_to_64() -> int {
    0x1_0000_0000_0000_0000
}

/// The varint at `pos` as a 64-bit value: at most ten bytes, below 2^64.
pub open spec fn varint64_at(b: Seq<u8>, pos: int) -> Option<(int, int)> {
    match varint_at(b, pos, MAX_VARINT_LEN as nat) {
        Some((v, e)) => if v < two_to_64() {
            Some((v, e))
        } else {
            None
        },
        None => None,
    }
}

/// A 64-bit varint is in range and ends after `pos`, within ten bytes.
pub proof fn lemma_varint64_bounds(b: Seq<u8>, pos: int)
    requires
        varint64_at(b, pos) is Some,
    ensures
        0 <= varint64_at(b, pos)->Some_0.0 < two_to_64(),
        pos < varint64_at(b, pos)->Some_0.1 <= b.len(),
        varint64_at(b, pos)->Some_0.1 <= pos + MAX_VARINT_LEN,
{
    lemma_varint_bounds(b, pos, MAX_VARINT_LEN as nat);
}

/// Reads the 64-bit varint at `pos`.
pub fn read_varint64(b: &[u8], pos: usize) -> (r: Option<(u64, usize)>)
    ensures
        match varint64_at(b@, pos as int) {
            None => r is None,
            Some((v, e)) => r is Some && r->Some_0.0 as int == v && r->Some_0.1 as int == e,
        },
{
    let blen = b.len();
    match read_varint(b, pos, MAX_VARINT_LEN) {
        None => None,
        Some((v, e)) => {
            proof {
                lemma_varint_bounds(b@, pos as int, MAX_VARINT_LEN as nat);
                lemma_radix_bound(MAX_VARINT_LEN as nat);
            }
            if v >= 0x1_0000_0000_0000_0000u128 {
                None
            } else {
                Some((v as u64, e))
            }
        },
    }
}

/// The value of one field as it is stored.
#[derive(Debug, Clone, Copy, PartialEq, Eq)]
pub enum WireValue {
    /// A varint (wire type 0).
    Varint(u64),
    /// Eight bytes (wire type 1), not interpreted.
    Fixed64,
    /// A length-delimited span `[start, end)` of the message (wire type 2).
    Span(usize, usize),
    /// Four bytes (wire type 5), not interpreted.
    Fixed32,
}

/// The field that starts at `pos` and ends by `end`: its number, its value
/// and the position just past it.
pub open spec fn field_at(b: Seq<u8>, pos: int, end: int) -> Option<(int, WireValue, int)> {
    match varint64_at(b, pos) {
        None => None,
        Some((key, p)) => {
            let number = key / 8;
            let wire = key % 8;
            if wire == 0 {
                match varint64_at(b, p) {
                    Some((v, q)) => if q <= end {
                        Some((number, WireValue::Varint(v as u64), q))
                    } else {
                        None
                    },
                    None => None,
                }
            } else if wire == 1 {
                if p + 8 <= end {
                    Some((number, WireValue::Fixed64, p + 8))
                } else {
                    None
                }
            } else if wire == 2 {
                match varint64_at(b, p) {
                    Some((len, q)) => if q + len <= end {
                        Some((number, WireValue::Span(q as usize, (q + len) as usize), q + len))
                    } else {
                        None
                    },
                    None => None,
                }
            } else if wire == 5 {
                if p + 4 <= end {
                    Some((number, WireValue::Fixed32, p + 4))
                } else {
                    None
                }
            } else {
                None
            }
        },
    }
}

/// A span value lies within `[0, end]`.
pub open spec fn value_within(v: WireValue, end: int) -> bool {
    match v {
        WireValue::Span(s, e) => s <= e <= end,
        _ => true,
    }
}

/// A field's span lies within the message that holds it.
pub proof fn lemma_field_within(b: Seq<u8>, pos: int, end: int)
    requires
        field_at(b, pos, end) is Some,
        0 <= end <= usize::MAX,
    ensures
        value_within(field_at(b, pos, end)->Some_0.1, end),
{
    lemma_varint64_bounds(b, pos);
    let p = varint64_at(b, pos)->Some_0.1;
    if varint64_at(b, p) is Some {
        lemma_varint64_bounds(b, p);
    }
}

/// Reads the field at `pos`, which must end by `end`.
pub fn read_field(b: &[u8], pos: usize, end: usize) -> (r: Option<(u64, WireValue, usize)>)
    requires
        end <= b@.len(),
    ensures
        match field_at(b@, pos as int, end as int) {
            None => r is None,
            Some((n, v, next)) => {
                &&& r is Some
                &&& r->Some_0.0 as int == n
                &&& r->Some_0.1 == v
                &&& r->Some_0.2 as int == next
                &&& pos < next <= end
            },
        },
{
    let blen = b.len();
    let (key, p) = match read_varint64(b, pos) {
        None => return None,
        Some(x) => x,
    };
    proof {
        lemma_varint64_bounds(b@, pos as int);
    }
    let number = key / 8;
    let wire = key % 8;
    if wire == 0 {
        match read_varint64(b, p) {
            Some((v, q)) => {
                proof {
                    lemma_varint64_bounds(b@, p as int);
                }
                if q <= end {
                    Some((number, WireValue::Varint(v), q))
                } else {
                    None
                }
            },
            None => None,
        }
    } else if wire == 1 {
        if p <= end && end - p >= 8 {
            Some((number, WireValue::Fixed64, p + 8))
        } else {
            None
        }
    } else if wire == 2 {
        match read_varint64(b, p) {
            Some((len, q)) => {
                proof {
                    lemma_varint64_bounds(b@, p as int);
                }
                if q <= end && len <= (end - q) as u64 {
                    let stop = q + len as usize;
                    Some((number, WireValue::Span(q, stop), stop))
                } else {
                    None
                }
            },
            None => None,
        }
    } else if wire == 5 {
        if p <= end && end - p >= 4 {
            Some((number, WireValue::Fixed32, p + 4))
        } else {
            None
        }
    } else {
        None
    }
}

/// The fields of the message `b[pos..end]`, in order, after `acc`; `None`
/// when a field is malformed or crosses `end`.
pub open spec fn fields_list_from(b: Seq<u8>, pos: int, end: int, acc: Seq<(int, WireValue)>) -> Option<
    Seq<(int, WireValue)>,
>
    decreases end - pos,
{
    if pos >= end {
        if pos == end {
            Some(acc)
        } else {
            None
        }
    } else {
        match field_at(b, pos, end) {
            None => None,
            Some((n, v, next)) => if next <= pos {
                None
            } else {
                fields_list_from(b, next, end, acc.push((n, v)))
            },
        }
    }
}

/// The fields of the message `b[start..end]`, in order.
pub open spec fn fields_list(b: Seq<u8>, start: int, end: int) -> Option<Seq<(int, WireValue)>> {
    fields_list_from(b, start, end, Seq::empty())
}

/// Fields with their numbers as integers.
pub open spec fn field_ints(v: Seq<(u64, WireValue)>) -> Seq<(int, WireValue)> {
    v.map_values(|f: (u64, WireValue)| (f.0 as int, f.1))
}

/// Every span of the fields lies within `[0, end]`.
pub open spec fn fields_within(v: Seq<(u64, WireValue)>, end: int) -> bool {
    forall|i: int| 0 <= i < v.len() ==> value_within(#[trigger] v[i].1, end)
}

/// Reads every field of the message `b[start..end]`, in order.
pub fn read_fields(b: &[u8], start: usize, end: usize) -> (r: Option<Vec<(u64, WireValue)>>)
    requires
        start <= end <= b@.len(),
    ensures
        match fields_list(b@, start as int, end as int) {
            None => r is None,
            Some(fs) => r matches Some(v) && field_ints(v@) == fs && fields_within(v@, end as int),
        },
{
    let mut acc: Vec<(u64, WireValue)> = Vec::new();
    let mut pos = start;
    assert(field_ints(acc@) =~= Seq::<(int, WireValue)>::empty());
    while pos < end
        invariant
            start <= pos <= end <= b@.len(),
            fields_list_from(b@, pos as int, end as int, field_ints(acc@)) == fields_list(b@, start as int, end as int),
            fields_within(acc@, end as int),
        decreases end - pos,
    {
        match read_field(b, pos, end) {
            None => return None,
            Some((n, v, next)) => {
                proof {
                    lemma_field_within(b@, pos as int, end as int);
                }
                let ghost before = acc@;
                acc.push((n, v));
                assert(field_ints(acc@) =~= field_ints(before).push((n as int, v)));
                pos = next;
            },
        }
    }
    Some(acc)
}

/// The spans of the length-delimited occurrences of field `n`, in order.
pub open spec fn spans_of(fs: Seq<(int, WireValue)>, n: int) -> Seq<(int, int)>
    decreases fs.len(),
{
    if fs.len() == 0 {
        Seq::empty()
    } else {
        let r = spans_of(fs.drop_last(), n);
        match fs.last().1 {
            WireValue::Span(s, e) => if fs.last().0 == n {
                r.push((s as int, e as int))
            } else {
                r
            },
            _ => r,
        }
    }
}

/// The spans of fields read within `[0, end]` lie within it.
pub proof fn lemma_spans_within(fs: Seq<(u64, WireValue)>, n: int, end: int)
    requires
        fields_within(fs, end),
    ensures
        forall|i: int| 0 <= i < spans_of(field_ints(fs), n).len() ==> (#[trigger] spans_of(field_ints(fs), n)[i]).0
            <= spans_of(field_ints(fs), n)[i].1 <= end,
    decreases fs.len(),
{
    if fs.len() > 0 {
        let fi = field_ints(fs);
        assert(fi.drop_last() =~= field_ints(fs.drop_last()));
        lemma_spans_within(fs.drop_last(), n, end);
        assert(value_within(fs[fs.len() - 1].1, end));
        assert(fi.last() == (fs[fs.len() - 1].0 as int, fs[fs.len() - 1].1));
        let r = spans_of(fi.drop_last(), n);
        assert forall|i: int| 0 <= i < spans_of(fi, n).len() implies (#[trigger] spans_of(fi, n)[i]).0
            <= spans_of(fi, n)[i].1 <= end by {
            if i < r.len() {
                assert(spans_of(fi, n)[i] == r[i]);
            }
        }
    }
}

/// The value of the last varint occurrence of field `n`.
pub open spec fn last_varint(fs: Seq<(int, WireValue)>, n: int) -> Option<int>
    decreases fs.len(),
{
    if fs.len() == 0 {
        None
    } else {
        match fs.last().1 {
            WireValue::Varint(v) => if fs.last().0 == n {
                Some(v as int)
            } else {
                last_varint(fs.drop_last(), n)
            },
            _ => last_varint(fs.drop_last(), n),
        }
    }
}

/// Spans as integer pairs.
pub open spec fn span_ints(v: Seq<(usize, usize)>) -> Seq<(int, int)> {
    v.map_values(|p: (usize, usize)| (p.0 as int, p.1 as int))
}

/// Collects the spans of field `n`, in order.
pub fn collect_spans(fs: &Vec<(u64, WireValue)>, n: u64) -> (r: Vec<(usize, usize)>)
    ensures
        span_ints(r@) == spans_of(field_ints(fs@), n as int),
{
    let mut out: Vec<(usize, usize)> = Vec::new();
    let mut i: usize = 0;
    while i < fs.len()
        invariant
            i <= fs@.len(),
            span_ints(out@) == spans_of(field_ints(fs@.take(i as int)), n as int),
        decreases fs@.len() - i,
    {
        proof {
            assert(field_ints(fs@.take(i + 1)).drop_last() =~= field_ints(fs@.take(i as int)));
        }
        let (m, v) = fs[i];
        match v {
            WireValue::Span(s, e) => {
                if m == n {
                    let ghost before = out@;
                    out.push((s, e));
                    assert(span_ints(out@) =~= span_ints(before).push((s as int, e as int)));
                }
            },
            _ => {},
        }
        i = i + 1;
    }
    proof {
        assert(fs@.take(i as int) =~= fs@);
    }
    out
}

/// Finds the last varint occurrence of field `n`.
pub fn find_last_varint(fs: &Vec<(u64, WireValue)>, n: u64) -> (r: Option<u64>)
    ensures
        match last_varint(field_ints(fs@), n as int) {
            None => r is None,
            Some(v) => r matches Some(x) && x as int == v,
        },
{
    let mut i: usize = fs.len();
    assert(fs@.take(i as int) =~= fs@);
    while i > 0
        invariant
            i <= fs@.len(),
            last_varint(field_ints(fs@), n as int) == last_varint(field_ints(fs@.take(i as int)), n as int),
        decreases i,
    {
        proof {
            assert(field_ints(fs@.take(i as int)).drop_last() =~= field_ints(fs@.take(i - 1)));
            assert(field_ints(fs@.take(i as int)).last() == field_ints(fs@)[i - 1]);
        }
        let (m, v) = fs[i - 1];
        match v {
            WireValue::Varint(x) => {
                if m == n {
                    return Some(x);
                }
            },
            _ => {},
        }
        i = i - 1;
    }
    None
}

/// The varints packed in `b[pos..end]`, after `acc`.
pub open spec fn packed_from(b: Seq<u8>, pos: int, end: int, acc: Seq<int>) -> Option<Seq<int>>
    decreases end - pos,
{
    if pos >= end {
        if pos == end {
            Some(acc)
        } else {
            None
        }
    } else {
        match varint64_at(b, pos) {
            Some((v, q)) => if pos < q <= end {
                packed_from(b, q, end, acc.push(v))
            } else {
                None
            },
            None => None,
        }
    }
}

/// The varints packed in each span in turn, after `acc`.
pub open spec fn packed_spans(b: Seq<u8>, spans: Seq<(int, int)>, acc: Seq<int>) -> Option<Seq<int>>
    decreases spans.len(),
{
    if spans.len() == 0 {
        Some(acc)
    } else {
        match packed_from(b, spans[0].0, spans[0].1, acc) {
            Some(a) => packed_spans(b, spans.drop_first(), a),
            None => None,
        }
    }
}

/// Values as integers.
pub open spec fn u64_ints(v: Seq<u64>) -> Seq<int> {
    v.map_values(|x: u64| x as int)
}

/// Reads the varints packed in the spans, in order.
pub fn read_packed(b: &[u8], spans: &Vec<(usize, usize)>) -> (r: Option<Vec<u64>>)
    requires
        forall|i: int| 0 <= i < spans@.len() ==> (#[trigger] spans@[i]).0 <= spans@[i].1 <= b@.len(),
    ensures
        match packed_spans(b@, span_ints(spans@), Seq::empty()) {
            None => r is None,
            Some(s) => r matches Some(v) && u64_ints(v@) == s,
        },
{
    let mut acc: Vec<u64> = Vec::new();
    let mut i: usize = 0;
    assert(span_ints(spans@).skip(0) =~= span_ints(spans@));
    assert(u64_ints(acc@) =~= Seq::<int>::empty());
    while i < spans.len()
        invariant
            i <= spans@.len(),
            forall|k: int| 0 <= k < spans@.len() ==> (#[trigger] spans@[k]).0 <= spans@[k].1 <= b@.len(),
            packed_spans(b@, span_ints(spans@).skip(i as int), u64_ints(acc@)) == packed_spans(b@, span_ints(spans@), Seq::empty()),
        decreases spans@.len() - i,
    {
        let (start, end) = spans[i];
        proof {
            assert(span_ints(spans@).skip(i as int)[0] == (start as int, end as int));
            assert(span_ints(spans@).skip(i as int).drop_first() =~= span_ints(spans@).skip(i + 1));
        }
        let ghost acc0 = u64_ints(acc@);
        let mut pos = start;
        while pos < end
            invariant
                start <= pos <= end <= b@.len(),
                i < spans@.len(),
                forall|k: int| 0 <= k < spans@.len() ==> (#[trigger] spans@[k]).0 <= spans@[k].1 <= b@.len(),
                span_ints(spans@).skip(i as int)[0] == (start as int, end as int),
                span_ints(spans@).skip(i as int).drop_first() =~= span_ints(spans@).skip(i + 1),
                packed_spans(b@, span_ints(spans@).skip(i as int), acc0) == packed_spans(b@, span_ints(spans@), Seq::empty()),
                packed_from(b@, pos as int, end as int, u64_ints(acc@)) == packed_from(b@, start as int, end as int, acc0),
            decreases end - pos,
        {
            match read_varint64(b, pos) {
                None => return None,
                Some((v, q)) => {
                    proof {
                        lemma_varint64_bounds(b@, pos as int);
                    }
                    if q > end {
                        return None;
                    }
                    let ghost before = acc@;
                    acc.push(v);
                    assert(u64_ints(acc@) =~= u64_ints(before).push(v as int));
                    pos = q;
                },
            }
        }
        i = i + 1;
    }
    proof {
        assert(span_ints(spans@).skip(i as int) =~= Seq::<(int, int)>::empty());
    }
    Some(acc)
}

} // verus!
