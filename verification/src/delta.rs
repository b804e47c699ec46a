//! The delta prediction scheme: predicts each value from its immediate
//! predecessor and classifies which value indices cannot be predicted from
//! the mesh connectivity.

use vstd::prelude::*;
use crate::attribute::{Attribute, AttributeType};

verus! {

/// The stable numeric identifier of the delta prediction scheme.
pub const DELTA_PREDICTION_ID: u32 = 1;

/// A half-open range `[start, end)` of value indices.
#[derive(Clone, Copy, Debug, PartialEq, Eq, Structural)]
pub struct ValueRange {
    pub start: usize,
    pub end: usize,
}

/// Whether `x` lies in the half-open range.
pub open spec fn in_range(r: ValueRange, x: int) -> bool {
    r.start <= x < r.end
}

/// Whether `x` lies in some range of the sequence.
pub open spec fn covered(rs: Seq<ValueRange>, x: int) -> bool {
    exists|k: int| 0 <= k < rs.len() && #[trigger] in_range(rs[k], x)
}

/// The unique normal form of a set of indices as ranges: every range is
/// non-empty, and consecutive ranges are sorted with a gap between them.
pub open spec fn is_normal_form(rs: Seq<ValueRange>) -> bool {
    &&& forall|k: int| 0 <= k < rs.len() ==> (#[trigger] rs[k]).start < rs[k].end
    &&& forall|k: int| 0 <= k < rs.len() - 1 ==> (#[trigger] rs[k]).end < rs[k + 1].start
}

/// An ordered sequence of ranges: each is well-formed and no range starts
/// before the one preceding it ends.  Unlike the normal form, adjacent or
/// empty ranges are allowed.
pub open spec fn is_sorted_ranges(rs: Seq<ValueRange>) -> bool {
    &&& forall|k: int| 0 <= k < rs.len() ==> (#[trigger] rs[k]).start <= rs[k].end
    &&& forall|k: int| 0 <= k < rs.len() - 1 ==> (#[trigger] rs[k]).end <= rs[k + 1].start
}

/// The normal form is in particular an ordered sequence of ranges.
pub proof fn lemma_normal_form_sorted(rs: Seq<ValueRange>)
    requires
        is_normal_form(rs),
    ensures
        is_sorted_ranges(rs),
{
}

/// A strictly ascending sequence of indices.
pub open spec fn strictly_increasing(s: Seq<usize>) -> bool {
    forall|a: int, b: int| 0 <= a < b < s.len() ==> s[a] < s[b]
}

proof fn lemma_covered_push(rs: Seq<ValueRange>, r: ValueRange, x: int)
    ensures
        covered(rs.push(r), x) <==> (covered(rs, x) || in_range(r, x)),
{
    if covered(rs.push(r), x) {
        let k = choose|k: int| 0 <= k < rs.push(r).len() && #[trigger] in_range(rs.push(r)[k], x);
        if k < rs.len() {
            assert(in_range(rs[k], x));
        } else {
            assert(in_range(r, x));
        }
    }
    if covered(rs, x) {
        let k = choose|k: int| 0 <= k < rs.len() && #[trigger] in_range(rs[k], x);
        assert(in_range(rs.push(r)[k], x));
    }
    if in_range(r, x) {
        assert(in_range(rs.push(r)[rs.len() as int], x));
    }
}

proof fn lemma_contains_push(s: Seq<usize>, e: usize, x: usize)
    ensures
        s.push(e).contains(x) <==> (s.contains(x) || x == e),
{
    if s.push(e).contains(x) {
        let k = choose|k: int| 0 <= k < s.push(e).len() && s.push(e)[k] == x;
        if k < s.len() {
            assert(s[k] == x);
        }
    }
    if s.contains(x) {
        let k = choose|k: int| 0 <= k < s.len() && s[k] == x;
        assert(s.push(e)[k] == x);
    }
    if x == e {
        assert(s.push(e)[s.len() as int] == x);
    }
}

/// The indices below covered by `out` or lying in the pending run
/// `[start, end]` are exactly the members of `v`.
pub open spec fn run_covers(
    out: Seq<ValueRange>,
    start: usize,
    end: usize,
    v: Seq<usize>,
    x: usize,
) -> bool {
    (covered(out, x as int) || (start <= x <= end)) <==> v.contains(x)
}

/// Coalesces a strictly ascending index sequence into its unique normal
/// form: sorted, disjoint, non-adjacent half-open ranges covering exactly
/// the given indices.
#[verifier::loop_isolation(false)]
pub fn into_ranges(v: Vec<usize>) -> (r: Vec<ValueRange>)
    requires
        strictly_increasing(v@),
        forall|a: int| 0 <= a < v@.len() ==> (#[trigger] v@[a]) < usize::MAX,
    ensures
        is_normal_form(r@),
        forall|x: usize| covered(r@, x as int) <==> v@.contains(x),
{
    let mut out: Vec<ValueRange> = Vec::new();
    let n = v.len();
    if n == 0 {
        proof {
            assert forall|x: usize| !covered(out@, x as int) && !v@.contains(x) by {
                if v@.contains(x) {
                    let a = choose|a: int| 0 <= a < v@.len() && v@[a] == x;
                }
            }
        }
        return out;
    }
    let mut start = v[0];
    let mut end = v[0];
    let mut k: usize = 1;
    proof {
        assert forall|x: usize| #[trigger] run_covers(out@, start, end, v@.take(1), x) by {
            assert(v@.take(1)[0] == v@[0]);
            if v@.take(1).contains(x) {
                let a = choose|a: int| 0 <= a < v@.take(1).len() && v@.take(1)[a] == x;
            }
            if x == v@[0] {
                assert(v@.take(1).contains(x));
            }
        }
    }
    while k < n
        invariant
            1 <= k <= n,
            start <= end,
            end == v@[k - 1],
            is_normal_form(out@),
            forall|a: int| 0 <= a < out@.len() ==> (#[trigger] out@[a]).end < start,
            forall|x: usize| #[trigger] run_covers(out@, start, end, v@.take(k as int), x),
        decreases n - k,
    {
        let val = v[k];
        proof {
            assert(v@[k as int] > v@[k - 1]);
            assert(v@.take(k + 1) =~= v@.take(k as int).push(val));
        }
        if val != end + 1 {
            let closed_range = ValueRange { start, end: end + 1 };
            proof {
                assert forall|x: usize| #[trigger] run_covers(
                    out@.push(closed_range),
                    val,
                    val,
                    v@.take(k + 1),
                    x,
                ) by {
                    assert(run_covers(out@, start, end, v@.take(k as int), x));
                    lemma_covered_push(out@, closed_range, x as int);
                    lemma_contains_push(v@.take(k as int), val, x);
                }
            }
            out.push(closed_range);
            start = val;
        } else {
            proof {
                assert forall|x: usize| #[trigger] run_covers(
                    out@,
                    start,
                    val,
                    v@.take(k + 1),
                    x,
                ) by {
                    assert(run_covers(out@, start, end, v@.take(k as int), x));
                    lemma_contains_push(v@.take(k as int), val, x);
                }
            }
        }
        end = val;
        k = k + 1;
    }
    let last_range = ValueRange { start, end: end + 1 };
    proof {
        assert(v@.take(n as int) =~= v@);
        assert forall|x: usize| covered(out@.push(last_range), x as int) <==> v@.contains(x) by {
            assert(run_covers(out@, start, end, v@.take(n as int), x));
            lemma_covered_push(out@, last_range, x as int);
        }
    }
    out.push(last_range);
    out
}

/// Flattens an ordered range sequence into the strictly ascending list
/// of the indices it covers.
#[verifier::loop_isolation(false)]
fn range_indices(rs: &Vec<ValueRange>) -> (r: Vec<usize>)
    requires
        is_sorted_ranges(rs@),
    ensures
        strictly_increasing(r@),
        forall|x: usize| r@.contains(x) <==> covered(rs@, x as int),
        forall|a: int| 0 <= a < r@.len() ==> (#[trigger] r@[a]) < usize::MAX,
{
    let mut r: Vec<usize> = Vec::new();
    let n = rs.len();
    let mut ri: usize = 0;
    while ri < n
        invariant
            0 <= ri <= n,
            strictly_increasing(r@),
            forall|x: usize| r@.contains(x) <==> covered(rs@.take(ri as int), x as int),
            forall|a: int| 0 <= a < r@.len() ==> (#[trigger] r@[a]) < usize::MAX,
            ri < n ==> forall|a: int| 0 <= a < r@.len() ==> (#[trigger] r@[a]) < rs@[ri as int].start,
        decreases n - ri,
    {
        let rr = rs[ri];
        let mut i = rr.start;
        while i < rr.end
            invariant
                rr == rs@[ri as int],
                rr.start <= i <= rr.end,
                strictly_increasing(r@),
                forall|x: usize|
                    r@.contains(x) <==> (covered(rs@.take(ri as int), x as int) || (rr.start <= x
                        < i)),
                forall|a: int| 0 <= a < r@.len() ==> (#[trigger] r@[a]) < usize::MAX,
                forall|a: int| 0 <= a < r@.len() ==> (#[trigger] r@[a]) < i || i == rr.start,
            decreases rr.end - i,
        {
            proof {
                assert forall|x: usize| #[trigger]
                    r@.push(i).contains(x) <==> (covered(rs@.take(ri as int), x as int) || (
                rr.start <= x < i + 1)) by {
                    lemma_contains_push(r@, i, x);
                }
                assert forall|a: int| 0 <= a < r@.len() implies (#[trigger] r@[a]) < i by {
                    if i == rr.start {
                        assert(r@.contains(r@[a]));
                        assert(covered(rs@.take(ri as int), r@[a] as int) || (rr.start <= r@[a]
                            < i));
                        let kk = choose|kk: int|
                            0 <= kk < rs@.take(ri as int).len() && #[trigger] in_range(
                                rs@.take(ri as int)[kk],
                                r@[a] as int,
                            );
                        lemma_sorted_ranges_end_le_start(rs@, kk, ri as int);
                    }
                }
                assert(strictly_increasing(r@.push(i))) by {
                    assert forall|a: int, b: int|
                        0 <= a < b < r@.push(i).len() implies r@.push(i)[a] < r@.push(i)[b] by {
                        if b < r@.len() {
                            assert(r@[a] < r@[b]);
                        } else {
                            assert(r@[a] < i);
                        }
                    }
                }
            }
            r.push(i);
            i = i + 1;
        }
        proof {
            assert(rs@.take(ri + 1) =~= rs@.take(ri as int).push(rr));
            assert forall|x: usize|
                r@.contains(x) <==> covered(rs@.take(ri + 1), x as int) by {
                lemma_covered_push(rs@.take(ri as int), rr, x as int);
            }
            if ri + 1 < n {
                assert forall|a: int| 0 <= a < r@.len() implies (#[trigger] r@[a]) < rs@[ri
                    + 1].start by {
                    assert(r@.contains(r@[a]));
                    let kk = choose|kk: int|
                        0 <= kk < rs@.take(ri + 1).len() && #[trigger] in_range(
                            rs@.take(ri + 1)[kk],
                            r@[a] as int,
                        );
                    lemma_sorted_ranges_end_le_start(rs@, kk, ri + 1);
                }
            }
        }
        ri = ri + 1;
    }
    proof {
        assert(rs@.take(n as int) =~= rs@);
    }
    r
}

/// In an ordered range sequence, every range before `b` ends no later than
/// the start of range `b`.
proof fn lemma_sorted_ranges_end_le_start(rs: Seq<ValueRange>, a: int, b: int)
    requires
        is_sorted_ranges(rs),
        0 <= a < b <= rs.len(),
        b < rs.len() || a < rs.len(),
    ensures
        b < rs.len() ==> rs[a].end <= rs[b].start,
    decreases b - a,
{
    if b < rs.len() && a + 1 < b {
        lemma_sorted_ranges_end_le_start(rs, a + 1, b);
    }
}

/// Whether a face contains the vertex index `x`.
pub open spec fn face_has(f: (u64, u64, u64), x: int) -> bool {
    f.0 == x || f.1 == x || f.2 == x
}

/// Whether value index `i` is predictable under delta prediction: it has a
/// predecessor, and some face contains both `i - 1` and `i`.
pub open spec fn spec_predictable(faces: Seq<(u64, u64, u64)>, i: int) -> bool {
    i > 0 && exists|k: int|
        0 <= k < faces.len() && #[trigger] face_has(faces[k], i - 1) && face_has(faces[k], i)
}

/// The faces a connectivity attribute stores, one triple per value.
pub open spec fn faces_of(values: Seq<Seq<u64>>) -> Seq<(u64, u64, u64)> {
    Seq::new(values.len(), |i: int| (values[i][0], values[i][1], values[i][2]))
}

/// The delta prediction scheme: the prediction for a value is the value
/// immediately before it, so an index is predictable exactly when the
/// connectivity ties it to its predecessor.
pub struct DeltaPrediction {
    faces: Vec<(u64, u64, u64)>,
}

impl DeltaPrediction {
    /// The faces of the connectivity parent the scheme was built from.
    pub closed spec fn faces(&self) -> Seq<(u64, u64, u64)> {
        self.faces@
    }

    /// Builds the scheme from its parents: exactly one parent, the
    /// connectivity attribute.
    pub fn new(parents: &Vec<&Attribute>) -> (r: Self)
        requires
            parents@.len() == 1,
            parents@[0].wf(),
            parents@[0].spec_att_type() == AttributeType::Connectivity,
        ensures
            r.faces() == faces_of(parents@[0].values()),
    {
        let parent = parents[0];
        proof {
            parent.lemma_connectivity_shape();
            parent.lemma_values_shape();
        }
        let vals = parent.as_slice();
        proof {
            assert forall|i2: int| 0 <= i2 < vals@.len() implies (#[trigger] vals@[i2])@.len()
                == 3 by {
                assert(crate::buffer::views_of(vals@)[i2] == vals@[i2]@);
                assert(parent.values()[i2].len() == parent.spec_num_components());
            }
        }
        let n = vals.len();
        let mut faces: Vec<(u64, u64, u64)> = Vec::new();
        let mut i: usize = 0;
        while i < n
            invariant
                i <= n,
                n == vals@.len(),
                crate::buffer::views_of(vals@) == parent.values(),
                forall|i2: int|
                    0 <= i2 < n ==> (#[trigger] vals@[i2])@.len() == 3,
                faces@.len() == i,
                forall|i2: int| 0 <= i2 < i ==> faces@[i2] == faces_of(parent.values())[i2],
            decreases n - i,
        {
            proof {
                assert(vals@[i as int]@ == parent.values()[i as int]);
            }
            let v = &vals[i];
            faces.push((v[0], v[1], v[2]));
            i = i + 1;
        }
        let r = DeltaPrediction { faces };
        proof {
            assert(r.faces() =~= faces_of(parents@[0].values()));
        }
        r
    }

    /// The scheme needs no metadata.
    pub fn compute_metadata(&mut self)
        ensures
            *final(self) == *old(self),
    {
    }

    /// Whether value index `i` can be predicted from the connectivity.
    fn predictable(&self, i: usize) -> (r: bool)
        ensures
            r == spec_predictable(self.faces(), i as int),
    {
        if i == 0 {
            return false;
        }
        let n = self.faces.len();
        let mut k: usize = 0;
        while k < n
            invariant
                k <= n,
                n == self.faces@.len(),
                i >= 1,
                forall|k2: int|
                    0 <= k2 < k ==> !(#[trigger] face_has(self.faces@[k2], i - 1) && face_has(
                        self.faces@[k2],
                        i as int,
                    )),
            decreases n - k,
        {
            let f = self.faces[k];
            let prev = (i - 1) as u64;
            let cur = i as u64;
            if (f.0 == prev || f.1 == prev || f.2 == prev) && (f.0 == cur || f.1 == cur || f.2
                == cur) {
                proof {
                    assert(face_has(self.faces@[k as int], i - 1) && face_has(
                        self.faces@[k as int],
                        i as int,
                    ));
                }
                return true;
            }
            k = k + 1;
        }
        false
    }

    /// Splits the given normal-form index ranges: the ranges mutate in
    /// place to cover exactly the predictable indices, and the returned
    /// ranges cover exactly the impossible-to-predict ones; both results
    /// are again in normal form.
    pub fn get_values_impossible_to_predict(&mut self, value_indices: &mut Vec<ValueRange>) -> (r:
        Vec<ValueRange>)
        requires
            is_sorted_ranges(old(value_indices)@),
        ensures
            final(self).faces() == old(self).faces(),
            is_normal_form(r@),
            is_normal_form(final(value_indices)@),
            forall|x: usize|
                covered(final(value_indices)@, x as int) <==> (covered(
                    old(value_indices)@,
                    x as int,
                ) && spec_predictable(old(self).faces(), x as int)),
            forall|x: usize|
                covered(r@, x as int) <==> (covered(old(value_indices)@, x as int)
                    && !spec_predictable(old(self).faces(), x as int)),
    {
        let idxs = range_indices(value_indices);
        let n = idxs.len();
        let mut keep: Vec<usize> = Vec::new();
        let mut out: Vec<usize> = Vec::new();
        let mut m: usize = 0;
        while m < n
            invariant
                m <= n,
                n == idxs@.len(),
                self == old(self),
                strictly_increasing(idxs@),
                forall|a: int| 0 <= a < idxs@.len() ==> (#[trigger] idxs@[a]) < usize::MAX,
                strictly_increasing(keep@),
                strictly_increasing(out@),
                forall|a: int| 0 <= a < keep@.len() ==> (#[trigger] keep@[a]) < usize::MAX,
                forall|a: int| 0 <= a < out@.len() ==> (#[trigger] out@[a]) < usize::MAX,
                forall|x: usize|
                    keep@.contains(x) <==> (idxs@.take(m as int).contains(x) && spec_predictable(
                        self.faces(),
                        x as int,
                    )),
                forall|x: usize|
                    out@.contains(x) <==> (idxs@.take(m as int).contains(x) && !spec_predictable(
                        self.faces(),
                        x as int,
                    )),
                forall|a: int| 0 <= a < keep@.len() ==> #[trigger] from_prefix(keep@, idxs@, m as int, a),
                forall|a: int| 0 <= a < out@.len() ==> #[trigger] from_prefix(out@, idxs@, m as int, a),
            decreases n - m,
        {
            let x = idxs[m];
            proof {
                assert(idxs@.take(m + 1) =~= idxs@.take(m as int).push(x));
            }
            if self.predictable(x) {
                proof {
                    lemma_push_partition(keep@, idxs@, m as int, x);
                    lemma_from_prefix_widen(out@, idxs@, m as int);
                    assert forall|x2: usize| #[trigger]
                        keep@.push(x).contains(x2) <==> (idxs@.take(m + 1).contains(x2)
                            && spec_predictable(self.faces(), x2 as int)) by {
                        lemma_contains_push(keep@, x, x2);
                        lemma_contains_push(idxs@.take(m as int), x, x2);
                    }
                    assert forall|x2: usize| #[trigger]
                        out@.contains(x2) <==> (idxs@.take(m + 1).contains(x2)
                            && !spec_predictable(self.faces(), x2 as int)) by {
                        lemma_contains_push(idxs@.take(m as int), x, x2);
                    }
                }
                keep.push(x);
            } else {
                proof {
                    lemma_push_partition(out@, idxs@, m as int, x);
                    lemma_from_prefix_widen(keep@, idxs@, m as int);
                    assert forall|x2: usize| #[trigger]
                        out@.push(x).contains(x2) <==> (idxs@.take(m + 1).contains(x2)
                            && !spec_predictable(self.faces(), x2 as int)) by {
                        lemma_contains_push(out@, x, x2);
                        lemma_contains_push(idxs@.take(m as int), x, x2);
                    }
                    assert forall|x2: usize| #[trigger]
                        keep@.contains(x2) <==> (idxs@.take(m + 1).contains(x2)
                            && spec_predictable(self.faces(), x2 as int)) by {
                        lemma_contains_push(idxs@.take(m as int), x, x2);
                    }
                }
                out.push(x);
            }
            m = m + 1;
        }
        proof {
            assert(idxs@.take(n as int) =~= idxs@);
        }
        let kept_ranges = into_ranges(keep);
        let impossible_ranges = into_ranges(out);
        *value_indices = kept_ranges;
        impossible_ranges
    }

    /// The prediction for the next value: the value immediately before it.
    pub fn predict(&self, values_up_till_now: &Vec<Vec<u64>>) -> (r: Vec<u64>)
        requires
            values_up_till_now@.len() > 0,
        ensures
            r@ == values_up_till_now@[values_up_till_now@.len() - 1]@,
    {
        let last = &values_up_till_now[values_up_till_now.len() - 1];
        let n = last.len();
        let mut r: Vec<u64> = Vec::new();
        let mut j: usize = 0;
        while j < n
            invariant
                j <= n,
                n == last@.len(),
                last@ == values_up_till_now@[values_up_till_now@.len() - 1]@,
                r@.len() == j,
                forall|j2: int| 0 <= j2 < j ==> r@[j2] == last@[j2],
            decreases n - j,
        {
            r.push(last[j]);
            j = j + 1;
        }
        proof {
            assert(r@ =~= last@);
        }
        r
    }
}

/// Classification splits its input: the predictable and the
/// impossible-to-predict ranges are disjoint, and together they cover
/// exactly the indices the input covered.
pub proof fn lemma_classification_partition(
    predictable: Seq<ValueRange>,
    impossible: Seq<ValueRange>,
    input: Seq<ValueRange>,
    faces: Seq<(u64, u64, u64)>,
)
    requires
        forall|x: usize|
            covered(predictable, x as int) <==> (covered(input, x as int) && spec_predictable(
                faces,
                x as int,
            )),
        forall|x: usize|
            covered(impossible, x as int) <==> (covered(input, x as int) && !spec_predictable(
                faces,
                x as int,
            )),
    ensures
        forall|x: usize| !(covered(predictable, x as int) && covered(impossible, x as int)),
        forall|x: usize|
            covered(input, x as int) <==> (covered(predictable, x as int) || covered(
                impossible,
                x as int,
            )),
{
}

/// Element `a` of `part` occurs among the first `m` elements of `src`.
pub open spec fn from_prefix(part: Seq<usize>, src: Seq<usize>, m: int, a: int) -> bool {
    exists|c: int| 0 <= c < m && part[a] == #[trigger] src[c]
}

/// A list whose elements come from the first `m` elements of `src` also
/// has them among the first `m + 1`.
proof fn lemma_from_prefix_widen(part: Seq<usize>, src: Seq<usize>, m: int)
    requires
        forall|a: int| 0 <= a < part.len() ==> #[trigger] from_prefix(part, src, m, a),
    ensures
        forall|a: int| 0 <= a < part.len() ==> #[trigger] from_prefix(part, src, m + 1, a),
{
    assert forall|a: int| 0 <= a < part.len() implies #[trigger] from_prefix(part, src, m + 1, a) by {
        assert(from_prefix(part, src, m, a));
        let c = choose|c: int| 0 <= c < m && part[a] == #[trigger] src[c];
        assert(0 <= c < m + 1 && part[a] == src[c]);
    }
}

/// Every element pushed onto a partition list in order stays above the
/// elements already there, keeping the list strictly ascending.
proof fn lemma_push_partition(part: Seq<usize>, src: Seq<usize>, m: int, x: usize)
    requires
        strictly_increasing(src),
        0 <= m < src.len(),
        x == src[m],
        forall|a: int| 0 <= a < part.len() ==> #[trigger] from_prefix(part, src, m, a),
        strictly_increasing(part),
    ensures
        strictly_increasing(part.push(x)),
        forall|a: int|
            0 <= a < part.push(x).len() ==> #[trigger] from_prefix(part.push(x), src, m + 1, a),
{
    assert forall|a: int, b: int|
        0 <= a < b < part.push(x).len() implies part.push(x)[a] < part.push(x)[b] by {
        if b < part.len() {
            assert(part[a] < part[b]);
        } else {
            assert(from_prefix(part, src, m, a));
            let c = choose|c: int| 0 <= c < m && part[a] == #[trigger] src[c];
            assert(src[c] < src[m]);
        }
    }
    assert forall|a: int|
        0 <= a < part.push(x).len() implies #[trigger] from_prefix(part.push(x), src, m + 1, a) by {
        if a < part.len() {
            assert(from_prefix(part, src, m, a));
            let c = choose|c: int| 0 <= c < m && part[a] == #[trigger] src[c];
            assert(part.push(x)[a] == src[c]);
        } else {
            assert(part.push(x)[a] == src[m]);
        }
    }
}

} // verus!
