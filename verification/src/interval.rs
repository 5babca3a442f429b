//! The interval merge engine: folds a list of intervals, optionally
//! partitioned by a discrete key, into maximal intervals by repeatedly
//! merging any interval whose start lies strictly inside another interval of
//! the same partition, until a pass finds nothing to merge (a fixed point).
//!
//! Two intervals that merely touch at an endpoint are left apart: the
//! overlap test is exclusive on both ends, by deliberate policy. Merging
//! only ever grows an interval's end and drops the absorbed entry; it never
//! mutates a start and never splits an interval.

use vstd::prelude::*;

use vstd::pervasive::VecAdditionalExecFns;

verus! {

/// An interval boundary: a value with a fixed place on an integer axis, so
/// that intervals over dates and over times are merged by one engine.
pub trait Boundary: Sized + Copy {
    /// The boundary's place on the integer axis.
    spec fn bval(self) -> int;

    /// Strict order of two boundaries on the axis.
    fn bval_lt(self, other: Self) -> (r: bool)
        ensures
            r == (self.bval() < other.bval()),
    ;
}

/// The mathematical model of an interval list: each entry becomes
/// (partition key, start, end) on the integer axis.
pub open spec fn iv_model<B: Boundary>(s: Seq<(u64, B, B)>) -> Seq<(int, int, int)> {
    s.map_values(|t: (u64, B, B)| (t.0 as int, t.1.bval(), t.2.bval()))
}

/// Entry `w` of `s` covers point `p` of partition `k`: the point lies
/// strictly inside the entry's span.
pub open spec fn covers_at(s: Seq<(int, int, int)>, w: int, k: int, p: int) -> bool {
    &&& 0 <= w < s.len()
    &&& s[w].0 == k
    &&& s[w].1 < p
    &&& p < s[w].2
}

/// Some entry of `s` covers point `p` of partition `k`.
pub open spec fn covers(s: Seq<(int, int, int)>, k: int, p: int) -> bool {
    exists|w: int| covers_at(s, w, k, p)
}

/// Entry `j`'s start lies strictly inside entry `i`'s span, both in the same
/// partition: the pair the engine merges.
pub open spec fn mergeable_at(s: Seq<(int, int, int)>, i: int, j: int) -> bool {
    &&& 0 <= i < s.len()
    &&& 0 <= j < s.len()
    &&& i != j
    &&& s[i].0 == s[j].0
    &&& s[i].1 < s[j].1
    &&& s[j].1 < s[i].2
}

/// Two intervals that merely touch at an endpoint are not merged: an
/// interval starting exactly where another ends is disjoint from it, by
/// deliberate policy.
pub proof fn lemma_touching_stays_apart(s: Seq<(int, int, int)>, i: int, j: int)
    requires
        0 <= i < s.len(),
        0 <= j < s.len(),
        s[j].1 == s[i].2,
    ensures
        !mergeable_at(s, i, j),
{
}

/// No entry's start lies strictly inside another entry's span within one
/// partition: the engine's fixed point.
pub open spec fn normalized(s: Seq<(int, int, int)>) -> bool {
    forall|i: int, j: int| !mergeable_at(s, i, j)
}

/// The two lists cover exactly the same points of every partition.
pub open spec fn same_coverage(a: Seq<(int, int, int)>, b: Seq<(int, int, int)>) -> bool {
    forall|k: int, p: int|
        #![trigger covers(a, k, p)]
        #![trigger covers(b, k, p)]
        covers(a, k, p) == covers(b, k, p)
}

/// Entry `w` of `a` keeps the partition key and the start of entry `x` of
/// `b`.
pub open spec fn start_match(
    a: Seq<(int, int, int)>,
    w: int,
    b: Seq<(int, int, int)>,
    x: int,
) -> bool {
    &&& 0 <= x < b.len()
    &&& b[x].0 == a[w].0
    &&& b[x].1 == a[w].1
}

/// Entry `w` of `a` keeps the key and start of some entry of `b`.
pub open spec fn has_start_match(a: Seq<(int, int, int)>, w: int, b: Seq<(int, int, int)>) -> bool {
    exists|x: int| start_match(a, w, b, x)
}

/// Every entry of `a` keeps the key and start of some entry of `b`: merging
/// never invents or mutates a start.
pub open spec fn starts_from(a: Seq<(int, int, int)>, b: Seq<(int, int, int)>) -> bool {
    forall|w: int| 0 <= w < a.len() ==> #[trigger] has_start_match(a, w, b)
}

/// Entry `w` of `a` keeps the partition key of entry `x` of `b` and ends
/// where it ends.
pub open spec fn end_match(
    a: Seq<(int, int, int)>,
    w: int,
    b: Seq<(int, int, int)>,
    x: int,
) -> bool {
    &&& 0 <= x < b.len()
    &&& b[x].0 == a[w].0
    &&& b[x].2 == a[w].2
}

/// Entry `w` of `a` keeps the key and end of some entry of `b`.
pub open spec fn has_end_match(a: Seq<(int, int, int)>, w: int, b: Seq<(int, int, int)>) -> bool {
    exists|x: int| end_match(a, w, b, x)
}

/// Every entry of `a` ends where some entry of `b` of the same partition
/// ends: merging only ever grows an end to another end already present.
pub open spec fn ends_from(a: Seq<(int, int, int)>, b: Seq<(int, int, int)>) -> bool {
    forall|w: int| 0 <= w < a.len() ==> #[trigger] has_end_match(a, w, b)
}

/// What one merge action leaves of the model: entry `i` grown to the larger
/// end, entry `j` removed.
pub open spec fn merged_model(s: Seq<(int, int, int)>, i: int, j: int) -> Seq<(int, int, int)> {
    let grown = (s[i].0, s[i].1, if s[i].2 < s[j].2 { s[j].2 } else { s[i].2 });
    s.update(i, grown).remove(j)
}

/// One merge action preserves coverage and starts, and shortens the list by
/// one.
proof fn lemma_merge_model(s: Seq<(int, int, int)>, i: int, j: int)
    requires
        mergeable_at(s, i, j),
    ensures
        merged_model(s, i, j).len() == s.len() - 1,
        same_coverage(merged_model(s, i, j), s),
        starts_from(merged_model(s, i, j), s),
        ends_from(merged_model(s, i, j), s),
{
    let m = merged_model(s, i, j);
    let grown = (s[i].0, s[i].1, if s[i].2 < s[j].2 { s[j].2 } else { s[i].2 });
    let i2 = if i < j { i } else { i - 1 };
    assert(m.len() == s.len() - 1);
    assert(forall|w: int|
        0 <= w < m.len() ==> m[w] == (if w < j {
            s.update(i, grown)[w]
        } else {
            s.update(i, grown)[w + 1]
        }));
    assert(m[i2] == grown);
    assert forall|k: int, p: int| covers(m, k, p) == covers(s, k, p) by {
        if covers(m, k, p) {
            let w = choose|w: int| covers_at(m, w, k, p);
            let w2 = if w < j { w } else { w + 1 };
            if w2 == i {
                if p < s[i].2 {
                    assert(covers_at(s, i, k, p));
                } else {
                    assert(covers_at(s, j, k, p));
                }
            } else {
                assert(covers_at(s, w2, k, p));
            }
            assert(covers(s, k, p));
        }
        if covers(s, k, p) {
            let w = choose|w: int| covers_at(s, w, k, p);
            if w == i || w == j {
                assert(covers_at(m, i2, k, p));
            } else {
                let w2 = if w < j { w } else { w - 1 };
                assert(covers_at(m, w2, k, p));
            }
            assert(covers(m, k, p));
        }
    }
    assert forall|w: int| 0 <= w < m.len() implies #[trigger] has_start_match(m, w, s) by {
        if w == i2 {
            assert(start_match(m, w, s, i));
        } else {
            let w2 = if w < j { w } else { w + 1 };
            assert(start_match(m, w, s, w2));
        }
    }
    assert forall|w: int| 0 <= w < m.len() implies #[trigger] has_end_match(m, w, s) by {
        if w == i2 {
            if s[i].2 < s[j].2 {
                assert(end_match(m, w, s, j));
            } else {
                assert(end_match(m, w, s, i));
            }
        } else {
            let w2 = if w < j { w } else { w + 1 };
            assert(end_match(m, w, s, w2));
        }
    }
}

/// Coverage equality is transitive.
proof fn lemma_same_coverage_trans(
    a: Seq<(int, int, int)>,
    b: Seq<(int, int, int)>,
    c: Seq<(int, int, int)>,
)
    requires
        same_coverage(a, b),
        same_coverage(b, c),
    ensures
        same_coverage(a, c),
{
    assert forall|k: int, p: int| covers(a, k, p) == covers(c, k, p) by {
        assert(covers(a, k, p) == covers(b, k, p));
        assert(covers(b, k, p) == covers(c, k, p));
    }
}

/// End provenance is transitive.
proof fn lemma_ends_from_trans(
    a: Seq<(int, int, int)>,
    b: Seq<(int, int, int)>,
    c: Seq<(int, int, int)>,
)
    requires
        ends_from(a, b),
        ends_from(b, c),
    ensures
        ends_from(a, c),
{
    assert forall|w: int| 0 <= w < a.len() implies #[trigger] has_end_match(a, w, c) by {
        assert(has_end_match(a, w, b));
        let x1 = choose|x1: int| end_match(a, w, b, x1);
        assert(has_end_match(b, x1, c));
        let x2 = choose|x2: int| end_match(b, x1, c, x2);
        assert(end_match(a, w, c, x2));
    }
}

/// Start provenance is transitive.
proof fn lemma_starts_from_trans(
    a: Seq<(int, int, int)>,
    b: Seq<(int, int, int)>,
    c: Seq<(int, int, int)>,
)
    requires
        starts_from(a, b),
        starts_from(b, c),
    ensures
        starts_from(a, c),
{
    assert forall|w: int| 0 <= w < a.len() implies #[trigger] has_start_match(a, w, c) by {
        assert(has_start_match(a, w, b));
        let x1 = choose|x1: int| start_match(a, w, b, x1);
        assert(has_start_match(b, x1, c));
        let x2 = choose|x2: int| start_match(b, x1, c, x2);
        assert(start_match(a, w, c, x2));
    }
}

/// Every list's starts and ends come from itself.
proof fn lemma_provenance_refl(a: Seq<(int, int, int)>)
    ensures
        starts_from(a, a),
        ends_from(a, a),
{
    assert forall|w: int| 0 <= w < a.len() implies #[trigger] has_start_match(a, w, a) by {
        assert(start_match(a, w, a, w));
    }
    assert forall|w: int| 0 <= w < a.len() implies #[trigger] has_end_match(a, w, a) by {
        assert(end_match(a, w, a, w));
    }
}

/// One pass of the engine: find the first pair whose starts nest, grow the
/// enclosing interval's end to the larger of the two ends, drop the other
/// entry, and report whether anything was merged. When nothing is merged the
/// list was already normalized and is left untouched.
fn merge_step<B: Boundary>(v: &mut Vec<(u64, B, B)>) -> (merged: bool)
    ensures
        merged ==> final(v)@.len() + 1 == old(v)@.len(),
        merged ==> !normalized(iv_model(old(v)@)),
        !merged ==> final(v)@ == old(v)@ && normalized(iv_model(final(v)@)),
        same_coverage(iv_model(final(v)@), iv_model(old(v)@)),
        starts_from(iv_model(final(v)@), iv_model(old(v)@)),
        ends_from(iv_model(final(v)@), iv_model(old(v)@)),
{
    let n = v.len();
    let mut i: usize = 0;
    while i < n
        invariant
            v@ == old(v)@,
            n == v@.len(),
            forall|ii: int, jj: int| ii < i as int ==> !mergeable_at(iv_model(v@), ii, jj),
        decreases n - i,
    {
        let mut j: usize = 0;
        while j < n
            invariant
                v@ == old(v)@,
                n == v@.len(),
                i < n,
                forall|ii: int, jj: int| ii < i as int ==> !mergeable_at(iv_model(v@), ii, jj),
                forall|jj: int| jj < j as int ==> !mergeable_at(iv_model(v@), i as int, jj),
            decreases n - j,
        {
            if i != j {
                let (ki, si, ei) = v[i];
                let (kj, sj, ej) = v[j];
                if ki == kj && si.bval_lt(sj) && sj.bval_lt(ei) {
                    let ghost s = iv_model(v@);
                    proof {
                        assert(s[i as int] == (ki as int, si.bval(), ei.bval()));
                        assert(s[j as int] == (kj as int, sj.bval(), ej.bval()));
                        assert(mergeable_at(s, i as int, j as int));
                    }
                    let ne = if ei.bval_lt(ej) {
                        ej
                    } else {
                        ei
                    };
                    v.set(i, (ki, si, ne));
                    v.remove(j);
                    proof {
                        assert(iv_model(v@) =~= merged_model(s, i as int, j as int));
                        lemma_merge_model(s, i as int, j as int);
                    }
                    return true;
                }
            }
            j += 1;
        }
        i += 1;
    }
    proof {
        lemma_provenance_refl(iv_model(v@));
    }
    false
}

/// Run the engine to its fixed point. The result is normalized (no entry's
/// start inside another entry of the same partition), covers exactly the
/// points the input covered, keeps every key and start from the input, and
/// an input that was already normalized comes back unchanged.
pub fn merge_overlaps<B: Boundary>(v: &mut Vec<(u64, B, B)>)
    ensures
        normalized(iv_model(final(v)@)),
        same_coverage(iv_model(final(v)@), iv_model(old(v)@)),
        starts_from(iv_model(final(v)@), iv_model(old(v)@)),
        ends_from(iv_model(final(v)@), iv_model(old(v)@)),
        normalized(iv_model(old(v)@)) ==> final(v)@ == old(v)@,
        final(v)@.len() <= old(v)@.len(),
{
    proof {
        lemma_provenance_refl(iv_model(v@));
    }
    let mut merged = true;
    while merged
        invariant
            same_coverage(iv_model(v@), iv_model(old(v)@)),
            starts_from(iv_model(v@), iv_model(old(v)@)),
            ends_from(iv_model(v@), iv_model(old(v)@)),
            !merged ==> normalized(iv_model(v@)),
            normalized(iv_model(old(v)@)) ==> v@ == old(v)@,
            v@.len() <= old(v)@.len(),
        decreases v@.len() + (if merged {
            1int
        } else {
            0int
        }),
    {
        let ghost prev = iv_model(v@);
        merged = merge_step(v);
        proof {
            lemma_same_coverage_trans(iv_model(v@), prev, iv_model(old(v)@));
            lemma_starts_from_trans(iv_model(v@), prev, iv_model(old(v)@));
            lemma_ends_from_trans(iv_model(v@), prev, iv_model(old(v)@));
        }
    }
}

} // verus!
