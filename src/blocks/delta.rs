//! Delta coding: a column stored as differences `d[0] = x[0]`,
//! `d[k] = x[k] - x[k-1]`, decoded by running sums from 0.

use vstd::prelude::*;
use crate::io::blob::BlobError;

verus! {

/// The running sums of `d`: entry `k` is `d[0] + ... + d[k]`.
pub open spec fn running_sums(d: Seq<int>) -> Seq<int>
    decreases d.len(),
{
    if d.len() == 0 {
        Seq::empty()
    } else {
        let prev = running_sums(d.drop_last());
        let last = if d.len() == 1 { 0 } else { prev.last() };
        prev.push(last + d.last())
    }
}

/// The differences of `x`: `x[0]`, then each entry minus the one before.
pub open spec fn differences(x: Seq<int>) -> Seq<int> {
    Seq::new(x.len(), |k: int| if k == 0 { x[0] } else { x[k] - x[k - 1] })
}

/// A column of `i64` as integers.
pub open spec fn ints(s: Seq<i64>) -> Seq<int> {
    s.map_values(|v: i64| v as int)
}

/// Every entry fits an `i64`.
pub open spec fn fits_i64(s: Seq<int>) -> bool {
    forall|k: int| 0 <= k < s.len() ==> i64::MIN <= #[trigger] s[k] <= i64::MAX
}

/// Running sums keep the length.
pub proof fn lemma_running_sums_len(d: Seq<int>)
    ensures
        running_sums(d).len() == d.len(),
    decreases d.len(),
{
    if d.len() > 0 {
        lemma_running_sums_len(d.drop_last());
    }
}

/// Running sums of a prefix are a prefix of the running sums.
pub proof fn lemma_running_sums_prefix(d: Seq<int>, n: int)
    requires
        0 <= n <= d.len(),
    ensures
        running_sums(d.take(n)) == running_sums(d).take(n),
    decreases d.len(),
{
    lemma_running_sums_len(d);
    lemma_running_sums_len(d.take(n));
    if n < d.len() {
        assert(d.drop_last().take(n) =~= d.take(n));
        lemma_running_sums_prefix(d.drop_last(), n);
        lemma_running_sums_len(d.drop_last());
        assert(running_sums(d).take(n) =~= running_sums(d.drop_last()).take(n));
    } else {
        assert(d.take(n) =~= d);
        assert(running_sums(d).take(n) =~= running_sums(d));
    }
}

/// Entry `k` of the running sums, from entry `k - 1`.
pub proof fn lemma_running_sums_step(d: Seq<int>, k: int)
    requires
        0 <= k < d.len(),
    ensures
        running_sums(d)[k] == (if k == 0 { d[0] } else { running_sums(d)[k - 1] + d[k] }),
{
    lemma_running_sums_prefix(d, k + 1);
    lemma_running_sums_len(d);
    lemma_running_sums_len(d.take(k + 1));
    let t = d.take(k + 1);
    assert(t.drop_last() =~= d.take(k));
    lemma_running_sums_prefix(d, k);
    lemma_running_sums_len(d.take(k));
    assert(running_sums(t)[k] == running_sums(d)[k]);
    if k > 0 {
        assert(running_sums(t.drop_last()).last() == running_sums(d).take(k)[k - 1]);
    }
}

/// Decoding then re-encoding gives back the stored differences.
pub proof fn lemma_decode_then_encode(d: Seq<int>)
    ensures
        differences(running_sums(d)) == d,
{
    lemma_running_sums_len(d);
    let x = running_sums(d);
    assert forall|k: int| 0 <= k < d.len() implies differences(x)[k] == d[k] by {
        lemma_running_sums_step(d, k);
    }
    assert(differences(x) =~= d);
}

/// Encoding then decoding gives back the column.
pub proof fn lemma_encode_then_decode(x: Seq<int>)
    ensures
        running_sums(differences(x)) == x,
{
    let d = differences(x);
    lemma_running_sums_len(d);
    assert forall|k: int| 0 <= k < x.len() implies running_sums(d)[k] == x[k] by {
        lemma_sums_match(x, k);
    }
    assert(running_sums(d) =~= x);
}

proof fn lemma_sums_match(x: Seq<int>, k: int)
    requires
        0 <= k < x.len(),
    ensures
        running_sums(differences(x))[k] == x[k],
    decreases k,
{
    lemma_running_sums_step(differences(x), k);
    if k > 0 {
        lemma_sums_match(x, k - 1);
    }
}

/// Decodes a delta-coded column; a running sum that leaves `i64` is an
/// error.
pub fn delta_decode(d: &[i64]) -> (r: Result<Vec<i64>, BlobError>)
    ensures
        r is Ok <==> fits_i64(running_sums(ints(d@))),
        r matches Ok(v) ==> ints(v@) == running_sums(ints(d@)),
        r matches Err(e) ==> e is DecodeError,
{
    let ghost di = ints(d@);
    let mut out: Vec<i64> = Vec::new();
    let mut acc: i64 = 0;
    let mut i: usize = 0;
    proof {
        lemma_running_sums_len(di);
    }
    while i < d.len()
        invariant
            di == ints(d@),
            di.len() == d@.len(),
            running_sums(di).len() == di.len(),
            i <= d@.len(),
            ints(out@) == running_sums(di).take(i as int),
            i > 0 ==> acc == running_sums(di)[i - 1],
            i == 0 ==> acc == 0,
            fits_i64(running_sums(di).take(i as int)),
        decreases d@.len() - i,
    {
        proof {
            lemma_running_sums_step(di, i as int);
        }
        let next = match acc.checked_add(d[i]) {
            Some(v) => v,
            None => {
                proof {
                    assert(!fits_i64(running_sums(di))) by {
                        assert(!(i64::MIN <= running_sums(di)[i as int] <= i64::MAX));
                    }
                }
                return Err(BlobError::DecodeError("delta sum overflows".to_owned()));
            },
        };
        let ghost old_out = out@;
        out.push(next);
        proof {
            assert(ints(out@) =~= ints(old_out).push(next as int));
            assert(running_sums(di).take(i + 1) =~= running_sums(di).take(i as int).push(running_sums(di)[i as int]));
            assert(ints(out@) =~= running_sums(di).take(i + 1));
            assert(fits_i64(running_sums(di).take(i + 1))) by {
                assert forall|k: int| 0 <= k < i + 1 implies i64::MIN <= #[trigger] running_sums(di).take(i + 1)[k] <= i64::MAX by {
                    if k < i {
                        assert(running_sums(di).take(i + 1)[k] == running_sums(di).take(i as int)[k]);
                    }
                }
            }
        }
        acc = next;
        i = i + 1;
    }
    proof {
        assert(running_sums(di).take(i as int) =~= running_sums(di));
    }
    Ok(out)
}

/// Encodes a column as differences; a difference that leaves `i64` is an
/// error.
pub fn delta_encode(x: &[i64]) -> (r: Result<Vec<i64>, BlobError>)
    ensures
        r is Ok <==> fits_i64(differences(ints(x@))),
        r matches Ok(v) ==> ints(v@) == differences(ints(x@)),
        r matches Err(e) ==> e is DecodeError,
{
    let ghost xi = ints(x@);
    let mut out: Vec<i64> = Vec::new();
    let mut i: usize = 0;
    while i < x.len()
        invariant
            xi == ints(x@),
            i <= x@.len(),
            ints(out@) == differences(xi).take(i as int),
            fits_i64(differences(xi).take(i as int)),
        decreases x@.len() - i,
    {
        let v = if i == 0 {
            x[0]
        } else {
            match x[i].checked_sub(x[i - 1]) {
                Some(v) => v,
                None => {
                    proof {
                        assert(!fits_i64(differences(xi))) by {
                            assert(!(i64::MIN <= differences(xi)[i as int] <= i64::MAX));
                        }
                    }
                    return Err(BlobError::DecodeError("delta difference overflows".to_owned()));
                },
            }
        };
        let ghost old_out = out@;
        out.push(v);
        proof {
            assert(ints(out@) =~= ints(old_out).push(v as int));
            assert(differences(xi).take(i + 1) =~= differences(xi).take(i as int).push(differences(xi)[i as int]));
            assert(ints(out@) =~= differences(xi).take(i + 1));
            assert(fits_i64(differences(xi).take(i + 1))) by {
                assert forall|k: int| 0 <= k < i + 1 implies i64::MIN <= #[trigger] differences(xi).take(i + 1)[k] <= i64::MAX by {
                    if k < i {
                        assert(differences(xi).take(i + 1)[k] == differences(xi).take(i as int)[k]);
                    }
                }
            }
        }
        i = i + 1;
    }
    proof {
        assert(differences(xi).take(i as int) =~= differences(xi));
    }
    Ok(out)
}

/// A decoded column re-encodes to the stored differences, without
/// overflow.
pub proof fn lemma_decode_encode_round_trip(d: Seq<i64>)
    requires
        fits_i64(running_sums(ints(d))),
    ensures
        differences(running_sums(ints(d))) == ints(d),
        fits_i64(differences(running_sums(ints(d)))),
{
    lemma_decode_then_encode(ints(d));
    assert forall|k: int| 0 <= k < ints(d).len() implies i64::MIN <= #[trigger] ints(d)[k] <= i64::MAX by {}
}

} // verus!
