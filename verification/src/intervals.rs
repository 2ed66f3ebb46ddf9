//! Closed coordinate ranges over one contig: the normal form of a list of
//! ranges, the sweep that reaches it, and point queries.
use vstd::prelude::*;
use vstd::relations::*;
use vstd::seq_lib::*;

verus! {

/// Ranges are ordered by start, then by end.
pub open spec fn interval_leq(a: (usize, usize), b: (usize, usize)) -> bool {
    a.0 < b.0 || (a.0 == b.0 && a.1 <= b.1)
}

/// The order on ranges, as a value that `sort_by` and `sorted_by` take.
pub open spec fn interval_order() -> spec_fn((usize, usize), (usize, usize)) -> bool {
    |a: (usize, usize), b: (usize, usize)| interval_leq(a, b)
}

/// Whether `x` lies inside the closed range `iv`.
pub open spec fn within(iv: (usize, usize), x: usize) -> bool {
    iv.0 <= x && x <= iv.1
}

/// Whether some range of `s` holds `x`.
pub open spec fn covers(s: Seq<(usize, usize)>, x: usize) -> bool {
    exists|i: int| 0 <= i < s.len() && within(#[trigger] s[i], x)
}

/// One step of the sweep: `x` either extends the open range at the end of
/// `acc`, when it starts at or before that range's end, or opens a new one.
pub open spec fn absorb(acc: Seq<(usize, usize)>, x: (usize, usize)) -> Seq<(usize, usize)> {
    if acc.len() > 0 && x.0 <= acc.last().1 {
        acc.drop_last().push(
            (acc.last().0, if x.1 > acc.last().1 { x.1 } else { acc.last().1 }),
        )
    } else {
        acc.push(x)
    }
}

/// The sweep over a list that is already in order.
pub open spec fn coalesce(s: Seq<(usize, usize)>) -> Seq<(usize, usize)>
    decreases s.len(),
{
    if s.len() == 0 {
        Seq::empty()
    } else {
        absorb(coalesce(s.drop_last()), s.last())
    }
}

/// What merging makes of any list: order it, then sweep.
pub open spec fn merged(s: Seq<(usize, usize)>) -> Seq<(usize, usize)> {
    coalesce(s.sort_by(interval_order()))
}

/// Every range ends before the next one starts.
pub open spec fn separated(s: Seq<(usize, usize)>) -> bool {
    forall|i: int| 0 <= i < s.len() - 1 ==> (#[trigger] s[i]).1 < s[i + 1].0
}

/// The normal form: in order, and no two ranges overlap or touch.
pub open spec fn is_merged(s: Seq<(usize, usize)>) -> bool {
    sorted_by(s, interval_order()) && separated(s)
}

/// The order on ranges is total.
pub proof fn lemma_interval_order_total()
    ensures
        total_ordering(interval_order()),
{
    let r = interval_order();
    assert(reflexive(r));
    assert(antisymmetric(r));
    assert(transitive(r));
    assert(strongly_connected(r));
}

/// What the sweep keeps true of its result on an ordered, non-empty list.
pub open spec fn sweep_facts(s: Seq<(usize, usize)>, c: Seq<(usize, usize)>) -> bool {
    &&& c.len() > 0
    &&& c.len() <= s.len()
    &&& c.last().0 <= s.last().0
    &&& c.last().1 >= s.last().1
    &&& (c.last() == s.last() || c.last().0 <= c.last().1)
    &&& is_merged(c)
    &&& forall|x: usize| covers(c, x) <==> covers(s, x)
}

proof fn lemma_covers_push(s: Seq<(usize, usize)>, y: (usize, usize), x: usize)
    ensures
        covers(s.push(y), x) <==> (covers(s, x) || within(y, x)),
{
    let t = s.push(y);
    if covers(t, x) {
        let i = choose|i: int| 0 <= i < t.len() && within(#[trigger] t[i], x);
        if i < s.len() {
            assert(within(s[i], x));
        }
    }
    if covers(s, x) {
        let i = choose|i: int| 0 <= i < s.len() && within(#[trigger] s[i], x);
        assert(within(t[i], x));
    }
    if within(y, x) {
        assert(within(t[s.len() as int], x));
    }
}

/// A list put behind another holds the points of both.
pub proof fn lemma_covers_concat(a: Seq<(usize, usize)>, b: Seq<(usize, usize)>, x: usize)
    ensures
        covers(a + b, x) <==> (covers(a, x) || covers(b, x)),
{
    let t = a + b;
    if covers(t, x) {
        let i = choose|i: int| 0 <= i < t.len() && within(#[trigger] t[i], x);
        if i < a.len() {
            assert(within(a[i], x));
        } else {
            assert(within(b[i - a.len()], x));
        }
    }
    if covers(a, x) {
        let i = choose|i: int| 0 <= i < a.len() && within(#[trigger] a[i], x);
        assert(within(t[i], x));
    }
    if covers(b, x) {
        let i = choose|i: int| 0 <= i < b.len() && within(#[trigger] b[i], x);
        assert(within(t[a.len() + i], x));
    }
}

/// The sweep of an ordered list is in normal form and holds the same points.
pub proof fn lemma_coalesce(s: Seq<(usize, usize)>)
    requires
        sorted_by(s, interval_order()),
    ensures
        s.len() == 0 ==> coalesce(s).len() == 0,
        s.len() > 0 ==> sweep_facts(s, coalesce(s)),
    decreases s.len(),
{
    if s.len() > 0 {
        let p = s.drop_last();
        let x = s.last();
        let c = coalesce(p);
        let r = coalesce(s);
        assert(r == absorb(c, x));
        assert(s == p.push(x));
        assert(sorted_by(p, interval_order())) by {
            assert forall|i: int, j: int| 0 <= i < j < p.len() implies #[trigger] interval_order()(
                p[i],
                p[j],
            ) by {
                assert(interval_order()(s[i], s[j]));
            }
        }
        lemma_coalesce(p);
        assert forall|v: usize| covers(r, v) <==> covers(s, v) by {
            lemma_covers_push(p, x, v);
            if p.len() == 0 {
                assert(c.len() == 0);
                assert(r == c.push(x));
                lemma_covers_push(c, x, v);
                assert(!covers(c, v));
                assert(!covers(p, v));
            } else {
                assert(interval_order()(s[p.len() - 1], s[s.len() - 1]));
                if x.0 <= c.last().1 {
                    let w = (c.last().0, if x.1 > c.last().1 { x.1 } else { c.last().1 });
                    let d = c.drop_last();
                    assert(r == d.push(w));
                    assert(c == d.push(c.last()));
                    lemma_covers_push(d, w, v);
                    lemma_covers_push(d, c.last(), v);
                } else {
                    lemma_covers_push(c, x, v);
                }
            }
        }
        if p.len() == 0 {
            assert(r == c.push(x));
            assert(r.len() == 1);
            assert(r[0] == x);
        } else {
            assert(interval_order()(s[p.len() - 1], s[s.len() - 1]));
            if x.0 <= c.last().1 {
                let w = (c.last().0, if x.1 > c.last().1 { x.1 } else { c.last().1 });
                let d = c.drop_last();
                assert(r == d.push(w));
                assert forall|i: int, j: int| 0 <= i < j < r.len() implies #[trigger] interval_order()(
                    r[i],
                    r[j],
                ) by {
                    assert(interval_order()(c[i], c[j]));
                }
                assert forall|i: int| 0 <= i < r.len() - 1 implies (#[trigger] r[i]).1 < r[i
                    + 1].0 by {
                    assert(c[i].1 < c[i + 1].0);
                }
            } else {
                assert(r == c.push(x));
                assert forall|i: int, j: int| 0 <= i < j < r.len() implies #[trigger] interval_order()(
                    r[i],
                    r[j],
                ) by {
                    if j < c.len() {
                        assert(interval_order()(c[i], c[j]));
                    } else {
                        if i < c.len() - 1 {
                            assert(interval_order()(c[i], c[c.len() - 1]));
                        }
                    }
                }
                assert forall|i: int| 0 <= i < r.len() - 1 implies (#[trigger] r[i]).1 < r[i
                    + 1].0 by {
                    if i < c.len() - 1 {
                        assert(c[i].1 < c[i + 1].0);
                    }
                }
            }
        }
    }
}

/// The sweep leaves a list in normal form as it is.
pub proof fn lemma_coalesce_fixed(s: Seq<(usize, usize)>)
    requires
        separated(s),
    ensures
        coalesce(s) == s,
    decreases s.len(),
{
    if s.len() > 0 {
        let p = s.drop_last();
        assert forall|i: int| 0 <= i < p.len() - 1 implies (#[trigger] p[i]).1 < p[i + 1].0 by {
            assert(s[i].1 < s[i + 1].0);
        }
        lemma_coalesce_fixed(p);
        if p.len() > 0 {
            assert(s[p.len() - 1].1 < s[p.len() - 1 + 1].0);
        }
        assert(p.push(s.last()) == s);
    } else {
        assert(s == Seq::<(usize, usize)>::empty());
    }
}

/// Merging a list that is in normal form gives the list back.
pub proof fn lemma_merged_fixed(s: Seq<(usize, usize)>)
    requires
        is_merged(s),
    ensures
        merged(s) == s,
{
    let o = s.sort_by(interval_order());
    lemma_interval_order_total();
    s.lemma_sort_by_ensures(interval_order());
    lemma_sorted_unique(o, s, interval_order());
    lemma_coalesce_fixed(s);
}

/// What merging returns is in normal form, and holds exactly the points that
/// the ranges it was given hold.
pub proof fn lemma_merged_normal(s: Seq<(usize, usize)>)
    ensures
        is_merged(merged(s)),
        merged(s).len() <= s.len(),
        s.len() > 0 ==> merged(s).len() > 0,
        forall|x: usize| covers(merged(s), x) <==> covers(s, x),
{
    let o = s.sort_by(interval_order());
    s.lemma_sort_by_ensures(interval_order());
    lemma_coalesce(o);
    o.to_multiset_ensures();
    s.to_multiset_ensures();
    assert(o.len() == s.len());
    assert forall|x: usize| covers(o, x) <==> covers(s, x) by {
        if covers(o, x) {
            let i = choose|i: int| 0 <= i < o.len() && within(#[trigger] o[i], x);
            assert(o.contains(o[i]));
            assert(s.contains(o[i]));
            let j = choose|j: int| 0 <= j < s.len() && s[j] == o[i];
            assert(within(s[j], x));
        }
        if covers(s, x) {
            let i = choose|i: int| 0 <= i < s.len() && within(#[trigger] s[i], x);
            assert(s.contains(s[i]));
            assert(s.to_multiset().count(s[i]) > 0);
            assert(o.to_multiset().count(s[i]) > 0);
            assert(o.contains(s[i]));
            let j = choose|j: int| 0 <= j < o.len() && o[j] == s[i];
            assert(within(o[j], x));
        }
    }
    if s.len() == 0 {
        assert(merged(s).len() == 0);
    }
}

/// Merging is idempotent: merging what a merge returned changes nothing.
pub proof fn lemma_merge_idempotent(s: Seq<(usize, usize)>)
    ensures
        merged(merged(s)) == merged(s),
{
    lemma_merged_normal(s);
    lemma_merged_fixed(merged(s));
}

/// Orders a list of ranges by start, then by end, with the slice's own `sort`
/// of the standard library. Believed of it: what comes back is in that order
/// and holds the same ranges, each as often as before.
#[verifier::external_body]
fn sort_intervals(v: &mut Vec<(usize, usize)>)
    ensures
        sorted_by(final(v)@, interval_order()),
        final(v)@.to_multiset() == old(v)@.to_multiset(),
{
    v.sort();
}

/// Merges a list of ranges: the list is put in order, by start and then by
/// end, and swept once, so that ranges that overlap or touch become one.
/// The list itself is left in that order; the merged ranges are returned.
pub fn merge_intervals(intervals: &mut Vec<(usize, usize)>) -> (out: Vec<(usize, usize)>)
    ensures
        out@ == merged(old(intervals)@),
        final(intervals)@ == old(intervals)@.sort_by(interval_order()),
        is_merged(out@),
        forall|x: usize| covers(out@, x) <==> covers(old(intervals)@, x),
{
    let ghost given = intervals@;
    sort_intervals(intervals);
    proof {
        lemma_interval_order_total();
        given.lemma_sort_by_ensures(interval_order());
        lemma_sorted_unique(intervals@, given.sort_by(interval_order()), interval_order());
        lemma_merged_normal(given);
    }
    let mut out: Vec<(usize, usize)> = Vec::new();
    let n: usize = intervals.len();
    if n == 0 {
        return out;
    }
    let mut current: (usize, usize) = intervals[0];
    proof {
        assert(intervals@.take(1).drop_last() =~= Seq::<(usize, usize)>::empty());
        assert(coalesce(intervals@.take(1).drop_last()) =~= Seq::<(usize, usize)>::empty());
        assert(coalesce(intervals@.take(1)) =~= out@.push(current));
    }
    let mut i: usize = 1;
    while i < n
        invariant
            1 <= i <= n,
            n == intervals@.len(),
            out@.push(current) == coalesce(intervals@.take(i as int)),
        decreases n - i,
    {
        let next: (usize, usize) = intervals[i];
        proof {
            assert(intervals@.take(i + 1).drop_last() =~= intervals@.take(i as int));
            assert(intervals@.take(i + 1).last() == next);
            assert(out@.push(current).drop_last() =~= out@);
        }
        if next.0 <= current.1 {
            if next.1 > current.1 {
                current = (current.0, next.1);
            }
        } else {
            out.push(current);
            current = next;
        }
        i = i + 1;
    }
    proof {
        assert(intervals@.take(n as int) =~= intervals@);
    }
    out.push(current);
    out
}

/// Whether some range of the list holds the coordinate.
pub fn contains_point(intervals: &Vec<(usize, usize)>, coordinate: usize) -> (found: bool)
    ensures
        found == covers(intervals@, coordinate),
{
    let mut i: usize = 0;
    while i < intervals.len()
        invariant
            i <= intervals.len(),
            forall|k: int| 0 <= k < i ==> !within(#[trigger] intervals@[k], coordinate),
        decreases intervals.len() - i,
    {
        let iv: (usize, usize) = intervals[i];
        if iv.0 <= coordinate && coordinate <= iv.1 {
            assert(within(intervals@[i as int], coordinate));
            return true;
        }
        i = i + 1;
    }
    false
}

} // verus!
