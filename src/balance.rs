//! Balance of optimal partitions when every layer costs the same.
use vstd::prelude::*;
use crate::profile::{LayerExecutionResult, backward_prefix, forward_prefix, range_latency};
use crate::execution_result::{
    bottleneck_of, is_optimal, is_partition, latencies, lemma_partition_bounds,
    lemma_partition_split_first, max_int, peak,
};

verus! {

/// Every layer of the profile has latency (forward plus backward) `c > 0`.
pub open spec fn uniform_latency(layers: Seq<LayerExecutionResult>, c: int) -> bool {
    &&& c > 0
    &&& forall|x: int| 0 <= x < layers.len() ==> (#[trigger] layers[x]).forward + layers[x].backward == c
}

/// Latency of the first layer: the cost of every layer of an equal-cost
/// profile.
pub open spec fn unit_cost(layers: Seq<LayerExecutionResult>) -> int {
    layers[0].forward + layers[0].backward
}

/// The profile is non-empty and all its layers have the same positive latency.
pub open spec fn equal_cost(layers: Seq<LayerExecutionResult>) -> bool {
    layers.len() > 0 && uniform_latency(layers, unit_cost(layers))
}

/// `a / b` rounded up.
pub open spec fn ceil_div(a: int, b: int) -> int {
    (a + b - 1) / b
}

/// The two roundings of `l / s` as bounds.
pub proof fn lemma_div_bounds(l: int, s: int)
    requires
        s >= 1,
        l >= 0,
    ensures
        (ceil_div(l, s) - 1) * s < l <= ceil_div(l, s) * s,
        (l / s) * s <= l < (l / s + 1) * s,
        l / s <= ceil_div(l, s) <= l / s + 1,
        l >= 1 ==> ceil_div(l, s) >= 1,
{
    let m = ceil_div(l, s);
    let f = l / s;
    vstd::arithmetic::div_mod::lemma_fundamental_div_mod(l + s - 1, s);
    vstd::arithmetic::div_mod::lemma_fundamental_div_mod(l, s);
    let r1 = (l + s - 1) % s;
    let r2 = l % s;
    assert((m - 1) * s < l <= m * s) by (nonlinear_arith)
        requires
            l + s - 1 == s * m + r1,
            0 <= r1 < s,
    ;
    assert(f * s <= l < (f + 1) * s) by (nonlinear_arith)
        requires
            l == s * f + r2,
            0 <= r2 < s,
    ;
    assert(f <= m <= f + 1) by (nonlinear_arith)
        requires
            (m - 1) * s < l <= m * s,
            f * s <= l < (f + 1) * s,
            s >= 1,
    ;
    assert(l >= 1 ==> m >= 1) by (nonlinear_arith)
        requires
            l <= m * s,
            s >= 1,
    ;
}

/// With equal-cost layers no partition of `[i, j)` into `s` stages has a
/// bottleneck below `ceil((j - i) / s)` layers.
pub proof fn lemma_bottleneck_lower(layers: Seq<LayerExecutionResult>, q: Seq<(int, int)>, s: int, i: int, j: int)
    requires
        equal_cost(layers),
        is_partition(q, i, j),
        q.len() == s,
        0 <= i,
        j <= layers.len(),
    ensures
        bottleneck_of(layers, q) >= unit_cost(layers) * ceil_div(j - i, s),
{
    let c = unit_cost(layers);
    let l = j - i;
    lemma_partition_bounds(q, i, j);
    lemma_div_bounds(l, s);
    let m = ceil_div(l, s);
    let b = bottleneck_of(layers, q);
    let lq = latencies(layers, q);
    if b < c * m {
        assert forall|x: int| 0 <= x < q.len() implies #[trigger] q[x].1 - q[x].0 <= m - 1 by {
            lemma_peak_ge(lq, x);
            lemma_uniform_range(layers, c, q[x].0, q[x].1);
            let d = q[x].1 - q[x].0;
            assert(d <= m - 1) by (nonlinear_arith)
                requires
                    c * d <= b,
                    b < c * m,
                    c > 0,
            ;
        }
        lemma_sizes_at_most(q, m - 1);
        lemma_sizes_sum(q, i, j);
        assert(q.len() * (m - 1) == (m - 1) * s);
    }
}

/// Splitting `ceil(l / s)` layers off `l` leaves at least `s - 1` layers, whose
/// even split into `s - 1` stages rounds up no higher and down no lower.
pub proof fn lemma_split_arith(l: int, s: int)
    requires
        2 <= s <= l,
    ensures
        1 <= ceil_div(l, s),
        s - 1 <= l - ceil_div(l, s),
        ceil_div(l - ceil_div(l, s), s - 1) <= ceil_div(l, s),
        (l - ceil_div(l, s)) / (s - 1) >= l / s,
        l / s <= ceil_div(l, s),
{
    let m = ceil_div(l, s);
    let f = l / s;
    lemma_div_bounds(l, s);
    let l2 = l - m;
    let x = l - s + 1;
    assert(x * s >= l) by (nonlinear_arith)
        requires
            x == l - s + 1,
            s <= l,
            s >= 2,
    ;
    assert(m <= x) by (nonlinear_arith)
        requires
            (m - 1) * s < l,
            l <= x * s,
            s >= 2,
    ;
    lemma_div_bounds(l2, s - 1);
    let m2 = ceil_div(l2, s - 1);
    let f2 = l2 / (s - 1);
    assert(m2 <= m) by (nonlinear_arith)
        requires
            (m2 - 1) * (s - 1) < l2,
            l2 == l - m,
            l <= m * s,
            s >= 2,
    ;
    assert(f2 >= f) by (nonlinear_arith)
        requires
            l2 < (f2 + 1) * (s - 1),
            l2 == l - m,
            f * s <= l,
            f <= m <= f + 1,
            (m - 1) * s < l,
            s >= 2,
            (m == f + 1) || (m == f),
            l < (f + 1) * s,
    ;
}

/// Total number of layers over the stages of `p`.
pub open spec fn sizes_sum(p: Seq<(int, int)>) -> int
    decreases p.len(),
{
    if p.len() == 0 {
        0
    } else {
        (p[0].1 - p[0].0) + sizes_sum(p.drop_first())
    }
}

proof fn lemma_uniform_prefix(layers: Seq<LayerExecutionResult>, c: int, k: int)
    requires
        uniform_latency(layers, c),
        0 <= k <= layers.len(),
    ensures
        forward_prefix(layers, k) + backward_prefix(layers, k) == c * k,
    decreases k,
{
    if k > 0 {
        lemma_uniform_prefix(layers, c, k - 1);
        assert(layers[k - 1].forward + layers[k - 1].backward == c);
        assert(c * (k - 1) + c == c * k) by (nonlinear_arith);
    } else {
        assert(c * k == 0) by (nonlinear_arith)
            requires
                k == 0,
        ;
    }
}

pub proof fn lemma_uniform_range(layers: Seq<LayerExecutionResult>, c: int, a: int, b: int)
    requires
        uniform_latency(layers, c),
        0 <= a <= b <= layers.len(),
    ensures
        range_latency(layers, a, b) == c * (b - a),
{
    lemma_uniform_prefix(layers, c, a);
    lemma_uniform_prefix(layers, c, b);
    assert(c * b - c * a == c * (b - a)) by (nonlinear_arith);
}

proof fn lemma_sizes_sum(p: Seq<(int, int)>, i: int, j: int)
    requires
        is_partition(p, i, j),
    ensures
        sizes_sum(p) == j - i,
    decreases p.len(),
{
    if p.len() == 1 {
        assert(p.last() == p[0]);
        assert(p.drop_first().len() == 0);
        assert(sizes_sum(p.drop_first()) == 0);
    } else {
        lemma_partition_split_first(p, i, j);
        assert(p.subrange(1, p.len() as int) =~= p.drop_first());
        lemma_sizes_sum(p.drop_first(), p[0].1, j);
    }
}

pub proof fn lemma_peak_ge(xs: Seq<int>, k: int)
    requires
        0 <= k < xs.len(),
    ensures
        peak(xs) >= xs[k],
    decreases xs.len(),
{
    if xs.len() > 1 && k < xs.len() - 1 {
        lemma_peak_ge(xs.drop_last(), k);
    }
}

proof fn lemma_peak_const(xs: Seq<int>, v: int)
    requires
        xs.len() > 0,
        forall|k: int| 0 <= k < xs.len() ==> xs[k] == v,
    ensures
        peak(xs) == v,
    decreases xs.len(),
{
    if xs.len() > 1 {
        lemma_peak_const(xs.drop_last(), v);
    }
}

proof fn lemma_sizes_below(p: Seq<(int, int)>, m: int, k: int)
    requires
        forall|x: int| 0 <= x < p.len() ==> #[trigger] p[x].1 - p[x].0 <= m,
        0 <= k < p.len(),
        p[k].1 - p[k].0 < m,
    ensures
        sizes_sum(p) < p.len() * m,
    decreases p.len(),
{
    let rest = p.drop_first();
    let len = p.len() as int;
    if k == 0 {
        lemma_sizes_at_most(rest, m);
    } else {
        assert(rest[k - 1] == p[k]);
        assert forall|x: int| 0 <= x < rest.len() implies #[trigger] rest[x].1 - rest[x].0 <= m by {
            assert(rest[x] == p[x + 1]);
        }
        lemma_sizes_below(rest, m, k - 1);
        assert(p[0].1 - p[0].0 <= m);
    }
    assert((len - 1) * m + m == len * m) by (nonlinear_arith);
}

proof fn lemma_sizes_at_most(p: Seq<(int, int)>, m: int)
    requires
        forall|x: int| 0 <= x < p.len() ==> #[trigger] p[x].1 - p[x].0 <= m,
    ensures
        sizes_sum(p) <= p.len() * m,
    decreases p.len(),
{
    if p.len() > 0 {
        let rest = p.drop_first();
        let len = p.len() as int;
        assert forall|x: int| 0 <= x < rest.len() implies #[trigger] rest[x].1 - rest[x].0 <= m by {
            assert(rest[x] == p[x + 1]);
        }
        lemma_sizes_at_most(rest, m);
        assert(p[0].1 - p[0].0 <= m);
        assert((len - 1) * m + m == len * m) by (nonlinear_arith);
    }
}

/// When every layer has the same latency and the stage count `n` divides the
/// layer count `L`, every optimal partition of the profile into `n` stages
/// gives each stage exactly `L / n` layers.
pub proof fn lemma_equal_layers_balanced(layers: Seq<LayerExecutionResult>, p: Seq<(int, int)>, n: int, c: int)
    requires
        uniform_latency(layers, c),
        n >= 1,
        (layers.len() as int) % n == 0,
        is_optimal(layers, p, n, 0, layers.len() as int),
    ensures
        forall|k: int| 0 <= k < p.len() ==> #[trigger] p[k].1 - p[k].0 == (layers.len() as int) / n,
{
    let len = layers.len() as int;
    let m = len / n;
    lemma_partition_bounds(p, 0, len);
    vstd::arithmetic::div_mod::lemma_fundamental_div_mod(len, n);
    assert(len == n * m);
    assert(m >= 1) by (nonlinear_arith)
        requires
            len == n * m,
            len >= n,
            n >= 1,
    ;
    // The balanced partition, of `n` stages of `m` layers each.
    let q = Seq::new(n as nat, |k: int| (k * m, (k + 1) * m));
    assert forall|k: int| 0 <= k < n implies 0 <= #[trigger] (k * m) && k * m < (k + 1) * m && (k + 1) * m
        <= len by {
        assert(0 <= k * m && k * m < (k + 1) * m && (k + 1) * m <= n * m) by (nonlinear_arith)
            requires
                0 <= k < n,
                m >= 1,
        ;
    }
    assert(q[0].0 == 0) by {
        assert(0 * m == 0) by (nonlinear_arith);
    }
    assert(q.last().1 == len);
    assert forall|k: int| 0 <= k < q.len() implies #[trigger] q[k].0 < q[k].1 by {
        assert(k * m < (k + 1) * m);
    }
    assert forall|k: int| 0 <= k < q.len() - 1 implies #[trigger] q[k].1 == q[k + 1].0 by {}
    assert(is_partition(q, 0, len));
    let lq = latencies(layers, q);
    assert forall|k: int| 0 <= k < lq.len() implies lq[k] == c * m by {
        assert(k * m <= (k + 1) * m <= len);
        lemma_uniform_range(layers, c, k * m, (k + 1) * m);
        assert((k + 1) * m - k * m == m) by (nonlinear_arith);
    }
    lemma_peak_const(lq, c * m);
    assert(bottleneck_of(layers, p) <= c * m);
    let lp = latencies(layers, p);
    assert forall|k: int| 0 <= k < p.len() implies #[trigger] p[k].1 - p[k].0 <= m by {
        lemma_peak_ge(lp, k);
        lemma_partition_bounds(p, 0, len);
        assert(0 <= p[k].0 && p[k].0 < p[k].1 && p[k].1 <= len);
        lemma_uniform_range(layers, c, p[k].0, p[k].1);
        let d = p[k].1 - p[k].0;
        assert(c * d <= c * m);
        assert(d <= m) by (nonlinear_arith)
            requires
                c * d <= c * m,
                c > 0,
        ;
    }
    lemma_sizes_sum(p, 0, len);
    assert forall|k: int| 0 <= k < p.len() implies #[trigger] p[k].1 - p[k].0 == len / n by {
        if p[k].1 - p[k].0 < m {
            lemma_sizes_below(p, m, k);
        }
    }
}

proof fn lemma_peak_le(xs: Seq<int>, v: int)
    requires
        forall|k: int| 0 <= k < xs.len() ==> xs[k] <= v,
        xs.len() > 0,
    ensures
        peak(xs) <= v,
    decreases xs.len(),
{
    if xs.len() > 1 {
        lemma_peak_le(xs.drop_last(), v);
    }
}

/// A partition of `[a, a + len)` into `n` stages of at most `m` layers each,
/// which exists whenever `n <= len <= n * m`.
proof fn capped_partition(a: int, len: int, n: int, m: int) -> (q: Seq<(int, int)>)
    requires
        1 <= n <= len,
        len <= n * m,
    ensures
        is_partition(q, a, a + len),
        q.len() == n,
        forall|k: int| 0 <= k < q.len() ==> #[trigger] q[k].1 - q[k].0 <= m,
    decreases n,
{
    if n == 1 {
        let q = seq![(a, a + len)];
        assert(q.last() == q[0]);
        assert(len <= m) by (nonlinear_arith)
            requires
                n == 1,
                len <= n * m,
        ;
        q
    } else {
        let f = if m <= len - n + 1 { m } else { len - n + 1 };
        assert(f >= 1) by (nonlinear_arith)
            requires
                len <= n * m,
                n <= len,
                n >= 2,
                f == m || f == len - n + 1,
                f <= m,
                f <= len - n + 1,
        ;
        assert(len - f <= (n - 1) * m) by (nonlinear_arith)
            requires
                len <= n * m,
                f == m || (f == len - n + 1 && f < m),
                m >= 1,
                n >= 2,
        ;
        let rest = capped_partition(a + f, len - f, n - 1, m);
        let q = seq![(a, a + f)] + rest;
        assert(rest[0].0 == a + f);
        assert forall|k: int| 0 <= k < q.len() implies #[trigger] q[k].0 < q[k].1 by {
            if k > 0 {
                assert(q[k] == rest[k - 1]);
            }
        }
        assert forall|k: int| 0 <= k < q.len() - 1 implies #[trigger] q[k].1 == q[k + 1].0 by {
            if k > 0 {
                assert(q[k] == rest[k - 1]);
                assert(rest[k - 1].1 == rest[k].0);
            }
        }
        assert forall|k: int| 0 <= k < q.len() implies #[trigger] q[k].1 - q[k].0 <= m by {
            if k > 0 {
                assert(q[k] == rest[k - 1]);
            }
        }
        q
    }
}

/// When every layer has the same latency, no stage of an optimal partition of
/// the `L` layers into `n` stages holds a whole layer more than the average
/// `L / n`: its size `d` satisfies `(d - 1) * n < L`.
pub proof fn lemma_equal_layers_no_stage_above_average(
    layers: Seq<LayerExecutionResult>,
    p: Seq<(int, int)>,
    n: int,
    c: int,
)
    requires
        uniform_latency(layers, c),
        n >= 1,
        is_optimal(layers, p, n, 0, layers.len() as int),
    ensures
        forall|k: int| 0 <= k < p.len() ==> (#[trigger] p[k].1 - p[k].0 - 1) * n < layers.len(),
{
    let len = layers.len() as int;
    lemma_partition_bounds(p, 0, len);
    let m = (len + n - 1) / n;
    vstd::arithmetic::div_mod::lemma_fundamental_div_mod(len + n - 1, n);
    let r = (len + n - 1) % n;
    assert(0 <= r < n);
    assert(len <= n * m && (m - 1) * n < len) by (nonlinear_arith)
        requires
            len + n - 1 == n * m + r,
            0 <= r < n,
    ;
    let q = capped_partition(0, len, n, m);
    lemma_partition_bounds(q, 0, len);
    let lq = latencies(layers, q);
    assert forall|k: int| 0 <= k < lq.len() implies lq[k] <= c * m by {
        lemma_uniform_range(layers, c, q[k].0, q[k].1);
        let d = q[k].1 - q[k].0;
        assert(d <= m);
        assert(c * d <= c * m) by (nonlinear_arith)
            requires
                d <= m,
                c > 0,
        ;
    }
    lemma_peak_le(lq, c * m);
    let lp = latencies(layers, p);
    assert forall|k: int| 0 <= k < p.len() implies (#[trigger] p[k].1 - p[k].0 - 1) * n < len by {
        lemma_peak_ge(lp, k);
        assert(0 <= p[k].0 && p[k].0 < p[k].1 && p[k].1 <= len);
        lemma_uniform_range(layers, c, p[k].0, p[k].1);
        let d = p[k].1 - p[k].0;
        assert(c * d <= c * m);
        assert((d - 1) * n < len) by (nonlinear_arith)
            requires
                c * d <= c * m,
                c > 0,
                (m - 1) * n < len,
                n >= 1,
        ;
    }
}

} // verus!
