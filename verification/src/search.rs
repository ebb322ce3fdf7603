//! Integer measures of how close a search query is to a name.
use vstd::prelude::*;
use crate::text;

verus! {

/// The smallest of three numbers.
pub open spec fn min3(x: nat, y: nat, z: nat) -> nat {
    if x <= y && x <= z {
        x
    } else if y <= z {
        y
    } else {
        z
    }
}

/// The edit (Levenshtein) distance of `a` and `b`: the least number of
/// deletions, insertions and substitutions of one byte each that turn `a`
/// into `b`.
pub open spec fn edit_distance_spec(a: Seq<u8>, b: Seq<u8>) -> nat
    decreases a.len() + b.len(),
{
    if a.len() == 0 {
        b.len()
    } else if b.len() == 0 {
        a.len()
    } else {
        let cost: nat = if a.last() == b.last() { 0 } else { 1 };
        min3(
            edit_distance_spec(a.drop_last(), b) + 1,
            edit_distance_spec(a, b.drop_last()) + 1,
            edit_distance_spec(a.drop_last(), b.drop_last()) + cost,
        )
    }
}

/// The length of the longest common suffix of `a` and `b`.
pub open spec fn common_suffix(a: Seq<u8>, b: Seq<u8>) -> nat
    decreases a.len(),
{
    if a.len() == 0 || b.len() == 0 || a.last() != b.last() {
        0
    } else {
        1 + common_suffix(a.drop_last(), b.drop_last())
    }
}

/// The length of the longest common prefix of `a` and `b`.
pub open spec fn common_prefix(a: Seq<u8>, b: Seq<u8>) -> nat
    decreases a.len(),
{
    if a.len() == 0 || b.len() == 0 || a[0] != b[0] {
        0
    } else {
        1 + common_prefix(a.drop_first(), b.drop_first())
    }
}

/// `n` is the length of the longest common substring of `a` and `b`.
pub open spec fn is_longest_common_substring(a: Seq<u8>, b: Seq<u8>, n: nat) -> bool {
    &&& exists|i: int, j: int|
        0 <= i <= a.len() && 0 <= j <= b.len() && #[trigger] common_suffix(a.take(i), b.take(j)) == n
    &&& forall|i: int, j: int|
        0 <= i <= a.len() && 0 <= j <= b.len() ==> #[trigger] common_suffix(a.take(i), b.take(j)) <= n
}

/// A bound on the edit distance.
proof fn lemma_edit_distance_bound(a: Seq<u8>, b: Seq<u8>)
    ensures
        edit_distance_spec(a, b) <= a.len() + b.len(),
    decreases a.len() + b.len(),
{
    if a.len() > 0 && b.len() > 0 {
        lemma_edit_distance_bound(a.drop_last(), b);
    }
}

/// The edit distance of `q` and `c`, row by row over `q`.
pub fn edit_distance(q: &[u8], c: &[u8]) -> (r: usize)
    requires
        q@.len() + c@.len() <= usize::MAX,
    ensures
        r == edit_distance_spec(q@, c@),
{
    let m = c.len();
    let mut prev: Vec<usize> = Vec::new();
    let mut j: usize = 0;
    while j < m
        invariant
            j <= m,
            m == c@.len(),
            q@.len() + c@.len() <= usize::MAX,
            prev@.len() == j,
            forall|k: int| 0 <= k < j ==> #[trigger] prev@[k] == edit_distance_spec(q@.take(0), c@.take(k)),
        decreases m - j,
    {
        assert(q@.take(0).len() == 0);
        prev.push(j);
        j = j + 1;
    }
    assert(q@.take(0).len() == 0);
    prev.push(m);
    let mut i: usize = 0;
    while i < q.len()
        invariant
            i <= q@.len(),
            m == c@.len(),
            q@.len() + c@.len() <= usize::MAX,
            prev@.len() == m + 1,
            forall|k: int| 0 <= k <= m ==> #[trigger] prev@[k] == edit_distance_spec(q@.take(i as int), c@.take(k)),
        decreases q@.len() - i,
    {
        let mut curr: Vec<usize> = Vec::new();
        let ghost qa = q@.take(i + 1);
        assert(qa.drop_last() =~= q@.take(i as int));
        assert(c@.take(0).len() == 0);
        curr.push(i + 1);
        let mut k: usize = 0;
        while k < m
            invariant
                k <= m,
                i < q@.len(),
                m == c@.len(),
                q@.len() + c@.len() <= usize::MAX,
                qa == q@.take(i + 1),
                qa.drop_last() == q@.take(i as int),
                prev@.len() == m + 1,
                forall|x: int| 0 <= x <= m ==> #[trigger] prev@[x] == edit_distance_spec(q@.take(i as int), c@.take(x)),
                curr@.len() == k + 1,
                forall|x: int| 0 <= x <= k ==> #[trigger] curr@[x] == edit_distance_spec(qa, c@.take(x)),
            decreases m - k,
        {
            let cb = c[k];
            let qb = q[i];
            let ghost cb1 = c@.take(k + 1);
            assert(cb1.drop_last() =~= c@.take(k as int));
            assert(cb1.last() == cb);
            assert(qa.last() == qb);
            proof {
                lemma_edit_distance_bound(q@.take(i as int), cb1);
                lemma_edit_distance_bound(qa, c@.take(k as int));
                lemma_edit_distance_bound(q@.take(i as int), c@.take(k as int));
            }
            let cost: usize = if qb == cb { 0 } else { 1 };
            let del = prev[k + 1] + 1;
            let ins = curr[k] + 1;
            let sub = prev[k] + cost;
            let mut best = if del <= ins { del } else { ins };
            if sub < best {
                best = sub;
            }
            curr.push(best);
            k = k + 1;
        }
        prev = curr;
        i = i + 1;
    }
    assert(q@.take(q@.len() as int) =~= q@);
    assert(c@.take(m as int) =~= c@);
    prev[m]
}

/// The length of the longest common substring of `a` and `b`.
pub fn longest_common_substring(a: &[u8], b: &[u8]) -> (r: usize)
    ensures
        is_longest_common_substring(a@, b@, r as nat),
{
    let m = b.len();
    let mut dp: Vec<usize> = Vec::new();
    let mut j: usize = 0;
    while j < m
        invariant
            j <= m,
            m == b@.len(),
            dp@.len() == j,
            forall|k: int| 0 <= k < j ==> #[trigger] dp@[k] == common_suffix(a@.take(0), b@.take(k)),
        decreases m - j,
    {
        dp.push(0);
        j = j + 1;
    }
    dp.push(0);
    let mut max_len: usize = 0;
    assert(common_suffix(a@.take(0), b@.take(0)) == 0);
    let mut i: usize = 0;
    while i < a.len()
        invariant
            i <= a@.len(),
            m == b@.len(),
            dp@.len() == m + 1,
            forall|k: int| 0 <= k <= m ==> #[trigger] dp@[k] == common_suffix(a@.take(i as int), b@.take(k)),
            forall|x: int, y: int|
                0 <= x <= i && 0 <= y <= m ==> #[trigger] common_suffix(a@.take(x), b@.take(y)) <= max_len,
            exists|x: int, y: int|
                0 <= x <= i && 0 <= y <= m && #[trigger] common_suffix(a@.take(x), b@.take(y)) == max_len,
        decreases a@.len() - i,
    {
        let ghost aa = a@.take(i + 1);
        assert(aa.drop_last() =~= a@.take(i as int));
        let mut prev: usize = 0;
        let mut k: usize = 0;
        let ghost old_dp = dp@;
        assert(common_suffix(aa, b@.take(0)) == 0);
        while k < m
            invariant
                k <= m,
                i < a@.len(),
                m == b@.len(),
                aa == a@.take(i + 1),
                aa.drop_last() == a@.take(i as int),
                dp@.len() == m + 1,
                old_dp.len() == m + 1,
                forall|x: int| 0 <= x <= m ==> #[trigger] old_dp[x] == common_suffix(a@.take(i as int), b@.take(x)),
                forall|x: int| k < x <= m ==> #[trigger] dp@[x] == old_dp[x],
                forall|x: int| 1 <= x <= k ==> #[trigger] dp@[x] == common_suffix(aa, b@.take(x)),
                dp@[0] == old_dp[0],
                prev == old_dp[k as int],
                forall|x: int, y: int|
                    0 <= x <= i && 0 <= y <= m ==> #[trigger] common_suffix(a@.take(x), b@.take(y)) <= max_len,
                forall|y: int| 0 <= y <= k ==> #[trigger] common_suffix(aa, b@.take(y)) <= max_len,
                exists|x: int, y: int|
                    0 <= x <= i + 1 && 0 <= y <= m && #[trigger] common_suffix(a@.take(x), b@.take(y)) == max_len,
            decreases m - k,
        {
            let temp = dp[k + 1];
            let ghost bb = b@.take(k + 1);
            assert(bb.drop_last() =~= b@.take(k as int));
            assert(bb.last() == b[k as int]);
            assert(aa.last() == a[i as int]);
            proof {
                lemma_common_suffix_bound(a@.take(i as int), b@.take(k as int));
            }
            if a[i] == b[k] {
                let v = prev + 1;
                dp.set(k + 1, v);
                if v > max_len {
                    max_len = v;
                }
            } else {
                dp.set(k + 1, 0);
            }
            assert(dp@[k + 1] == common_suffix(aa, bb));
            assert(a@.take(i + 1) == aa);
            prev = temp;
            k = k + 1;
        }
        proof {
            assert forall|x: int, y: int|
                0 <= x <= i + 1 && 0 <= y <= m implies #[trigger] common_suffix(a@.take(x), b@.take(y)) <= max_len by {
                if x == i + 1 {
                    assert(a@.take(x) == aa);
                }
            }
            assert forall|x: int| 0 <= x <= m implies #[trigger] dp@[x] == common_suffix(a@.take(i + 1), b@.take(x)) by {
                if x == 0 {
                    assert(b@.take(0).len() == 0);
                    assert(a@.take(i as int) == aa.drop_last());
                    assert(common_suffix(a@.take(i as int), b@.take(0)) == 0);
                    assert(common_suffix(aa, b@.take(0)) == 0);
                }
            }
        }
        i = i + 1;
    }
    max_len
}

proof fn lemma_common_suffix_bound(a: Seq<u8>, b: Seq<u8>)
    ensures
        common_suffix(a, b) <= a.len(),
    decreases a.len(),
{
    if a.len() > 0 && b.len() > 0 && a.last() == b.last() {
        lemma_common_suffix_bound(a.drop_last(), b.drop_last());
    }
}

/// The length of the longest common prefix of `a` and `b`.
pub fn common_prefix_len(a: &[u8], b: &[u8]) -> (r: usize)
    ensures
        r == common_prefix(a@, b@),
{
    let mut i: usize = 0;
    assert(a@.skip(0) =~= a@);
    assert(b@.skip(0) =~= b@);
    while i < a.len() && i < b.len() && a[i] == b[i]
        invariant
            i <= a@.len(),
            i <= b@.len(),
            common_prefix(a@, b@) == i + common_prefix(a@.skip(i as int), b@.skip(i as int)),
        decreases a@.len() - i,
    {
        assert(a@.skip(i as int).drop_first() =~= a@.skip(i + 1));
        assert(b@.skip(i as int).drop_first() =~= b@.skip(i + 1));
        i = i + 1;
    }
    if i < a.len() && i < b.len() {
        assert(a@.skip(i as int)[0] == a@[i as int]);
        assert(b@.skip(i as int)[0] == b@[i as int]);
    }
    i
}


// ---------------------------------------------------------------------------
// Ranking the candidates
// ---------------------------------------------------------------------------

/// The positions `i` of `d` with `d[i] == v`, in increasing order.
pub open spec fn positions_at(d: Seq<usize>, v: int) -> Seq<int>
    decreases d.len(),
{
    if d.len() == 0 {
        seq![]
    } else {
        let p = positions_at(d.drop_last(), v);
        if d.last() == v {
            p.push(d.len() - 1)
        } else {
            p
        }
    }
}

/// The positions of `d` whose distance is under `max`, by increasing
/// distance, equal distances in the order of their positions: what a stable
/// sort by distance of the positions kept gives.
pub open spec fn ranked(d: Seq<usize>, max: int) -> Seq<int>
    decreases max,
{
    if max <= 0 {
        seq![]
    } else {
        ranked(d, max - 1) + positions_at(d, max - 1)
    }
}

/// The first `limit` positions of `ranked(d, max)`, or all of them where
/// there are fewer.
pub open spec fn ranked_within(d: Seq<usize>, max: int, limit: int) -> Seq<int> {
    let r = ranked(d, max);
    if r.len() <= limit {
        r
    } else {
        r.take(limit)
    }
}

/// The positions of the candidates to show, given the distance of each:
/// those with a distance under `max_dist`, by increasing distance, equal
/// distances in the order of the candidates, at most `limit` of them. The work is
/// one pass over the candidates for each distance under `max_dist`.
pub fn rank_by_distance(dists: &[usize], max_dist: usize, limit: usize) -> (r: Vec<usize>)
    ensures
        text::ints(r@) == ranked_within(dists@, max_dist as int, limit as int),
{
    let ghost d = dists@;
    let mut out: Vec<usize> = Vec::new();
    let mut v: usize = 0;
    assert(text::ints(out@) =~= ranked(d, 0));
    while v < max_dist
        invariant
            v <= max_dist,
            d == dists@,
            text::ints(out@) == ranked(d, v as int),
        decreases max_dist - v,
    {
        let mut i: usize = 0;
        assert(d.take(0) =~= Seq::<usize>::empty());
        assert(ranked(d, v as int) + positions_at(d.take(0), v as int) =~= ranked(d, v as int));
        while i < dists.len()
            invariant
                i <= d.len(),
                d == dists@,
                text::ints(out@) == ranked(d, v as int) + positions_at(d.take(i as int), v as int),
            decreases d.len() - i,
        {
            let ghost before = text::ints(out@);
            assert(d.take(i + 1).drop_last() =~= d.take(i as int));
            assert(d.take(i + 1).last() == d[i as int]);
            if dists[i] == v {
                out.push(i);
                assert(text::ints(out@) =~= before.push(i as int));
            }
            i = i + 1;
        }
        assert(d.take(d.len() as int) =~= d);
        v = v + 1;
    }
    if out.len() > limit {
        out.truncate(limit);
        assert(text::ints(out@) =~= ranked(d, max_dist as int).take(limit as int));
    }
    out
}

/// What `positions_at` holds: positions of `d` with that value, increasing.
proof fn lemma_positions_at(d: Seq<usize>, v: int)
    ensures
        forall|k: int|
            0 <= k < positions_at(d, v).len() ==> 0 <= #[trigger] positions_at(d, v)[k] < d.len() && d[positions_at(
                d,
                v,
            )[k]] == v,
        forall|i: int, j: int|
            0 <= i < j < positions_at(d, v).len() ==> #[trigger] positions_at(d, v)[i] < #[trigger] positions_at(
                d,
                v,
            )[j],
    decreases d.len(),
{
    if d.len() > 0 {
        let pre = d.drop_last();
        lemma_positions_at(pre, v);
        let p = positions_at(d, v);
        let q = positions_at(pre, v);
        assert forall|k: int| 0 <= k < p.len() implies 0 <= #[trigger] p[k] < d.len() && d[p[k]] == v by {
            if k < q.len() {
                assert(p[k] == q[k]);
                assert(d[q[k]] == pre[q[k]]);
            }
        }
        assert forall|i: int, j: int| 0 <= i < j < p.len() implies #[trigger] p[i] < #[trigger] p[j] by {
            assert(p[i] == q[i]);
            assert(q[i] < pre.len());
            if j < q.len() {
                assert(p[j] == q[j]);
            }
        }
    }
}

/// The ranking lists positions whose distance is under `max`, by increasing
/// distance, and equal distances in the order of their positions.
pub proof fn lemma_ranked_in_order(d: Seq<usize>, max: int)
    ensures
        forall|k: int|
            0 <= k < ranked(d, max).len() ==> 0 <= #[trigger] ranked(d, max)[k] < d.len() && d[ranked(d, max)[k]]
                < max,
        forall|i: int, j: int|
            0 <= i < j < ranked(d, max).len() ==> d[#[trigger] ranked(d, max)[i]] < d[#[trigger] ranked(d, max)[j]]
                || (d[ranked(d, max)[i]] == d[ranked(d, max)[j]] && ranked(d, max)[i] < ranked(d, max)[j]),
    decreases max,
{
    if max > 0 {
        lemma_ranked_in_order(d, max - 1);
        lemma_positions_at(d, max - 1);
        let a = ranked(d, max - 1);
        let p = positions_at(d, max - 1);
        let r = ranked(d, max);
        assert(r == a + p);
        assert forall|k: int| 0 <= k < r.len() implies 0 <= #[trigger] r[k] < d.len() && d[r[k]] < max by {
            if k < a.len() {
                assert(r[k] == a[k]);
            } else {
                assert(r[k] == p[k - a.len()]);
            }
        }
        assert forall|i: int, j: int| 0 <= i < j < r.len() implies d[#[trigger] r[i]] < d[#[trigger] r[j]] || (
        d[r[i]] == d[r[j]] && r[i] < r[j]) by {
            if j < a.len() {
                assert(r[i] == a[i] && r[j] == a[j]);
            } else if i < a.len() {
                assert(r[i] == a[i] && r[j] == p[j - a.len()]);
            } else {
                assert(r[i] == p[i - a.len()] && r[j] == p[j - a.len()]);
            }
        }
    }
}

} // verus!
