//! Reduction of a row of power readings to a display width.
//!
//! A row of `len` readings is cut into `width` contiguous windows of
//! `len / width` readings each; the last window also takes the remainder.
//! Each window gives one value: its maximum (`Peak`) or the mean of its
//! readings rounded down (`Average`). A row no wider than `width` is kept
//! as it is, and a width of zero gives an empty row.
use vstd::prelude::*;
use vstd::arithmetic::div_mod::{
    lemma_fundamental_div_mod, lemma_fundamental_div_mod_converse, lemma_mod_bound, lemma_mod_pos_bound,
};

verus! {

#[derive(Debug, Clone, Copy, PartialEq, Eq, Structural)]
pub enum DownscaleMode {
    Peak,
    Average,
}

impl DownscaleMode {
    /// The other mode.
    pub fn toggled(self) -> (r: DownscaleMode)
        ensures
            r == (match self {
                DownscaleMode::Peak => DownscaleMode::Average,
                DownscaleMode::Average => DownscaleMode::Peak,
            }),
    {
        match self {
            DownscaleMode::Peak => DownscaleMode::Average,
            DownscaleMode::Average => DownscaleMode::Peak,
        }
    }
}

pub open spec fn window_start(len: nat, width: nat, i: int) -> int {
    i * (len / width) as int
}

pub open spec fn window_end(len: nat, width: nat, i: int) -> int {
    if i == width - 1 {
        len as int
    } else {
        (i + 1) * (len / width) as int
    }
}

pub open spec fn seq_max(s: Seq<i64>) -> i64
    decreases s.len(),
{
    if s.len() <= 1 {
        s[0]
    } else {
        let m = seq_max(s.drop_last());
        if s.last() > m {
            s.last()
        } else {
            m
        }
    }
}

pub open spec fn seq_min(s: Seq<i64>) -> i64
    decreases s.len(),
{
    if s.len() <= 1 {
        s[0]
    } else {
        let m = seq_min(s.drop_last());
        if s.last() < m {
            s.last()
        } else {
            m
        }
    }
}

pub(crate) fn window_min(p: &Vec<i64>, start: usize, end: usize) -> (r: i64)
    requires
        start < end <= p@.len(),
    ensures
        r == seq_min(p@.subrange(start as int, end as int)),
{
    let mut m = p[start];
    let mut j: usize = start + 1;
    assert(p@.subrange(start as int, j as int).len() == 1);
    while j < end
        invariant
            start < j <= end <= p@.len(),
            m == seq_min(p@.subrange(start as int, j as int)),
        decreases end - j,
    {
        assert(p@.subrange(start as int, j + 1).drop_last() =~= p@.subrange(start as int, j as int));
        if p[j] < m {
            m = p[j];
        }
        j = j + 1;
    }
    m
}

pub open spec fn seq_sum(s: Seq<i64>) -> int
    decreases s.len(),
{
    if s.len() == 0 {
        0
    } else {
        seq_sum(s.drop_last()) + s.last()
    }
}

/// The mean of a non-empty window, rounded down.
pub open spec fn floor_mean(s: Seq<i64>) -> int {
    seq_sum(s) / (s.len() as int)
}

pub open spec fn reduce(s: Seq<i64>, mode: DownscaleMode) -> i64 {
    match mode {
        DownscaleMode::Peak => seq_max(s),
        DownscaleMode::Average => floor_mean(s) as i64,
    }
}

pub open spec fn window(p: Seq<i64>, width: nat, i: int) -> Seq<i64> {
    p.subrange(window_start(p.len(), width, i), window_end(p.len(), width, i))
}

/// `p` reduced to `width` values.
pub open spec fn downscaled(p: Seq<i64>, width: nat, mode: DownscaleMode) -> Seq<i64> {
    if width == 0 {
        Seq::empty()
    } else if width >= p.len() {
        p
    } else {
        Seq::new(width, |i: int| reduce(window(p, width, i), mode))
    }
}

proof fn lemma_floor_div_negative(sum: int, n: int)
    requires
        sum < 0,
        n > 0,
    ensures
        sum / n == -((-sum + n - 1) / n),
{
    let m = -sum;
    let q = (m + n - 1) / n;
    lemma_fundamental_div_mod(m + n - 1, n);
    let rr = (m + n - 1) % n;
    assert(0 <= rr < n);
    assert(m + n - 1 == n * q + rr);
    assert(sum == (-q) * n + (n - 1 - rr)) by (nonlinear_arith)
        requires
            m + n - 1 == n * q + rr,
            sum == -m,
    ;
    lemma_fundamental_div_mod_converse(sum, n, -q, n - 1 - rr);
}

pub(crate) fn window_max(p: &Vec<i64>, start: usize, end: usize) -> (r: i64)
    requires
        start < end <= p@.len(),
    ensures
        r == seq_max(p@.subrange(start as int, end as int)),
{
    let mut m = p[start];
    let mut j: usize = start + 1;
    assert(p@.subrange(start as int, j as int).len() == 1);
    while j < end
        invariant
            start < j <= end <= p@.len(),
            m == seq_max(p@.subrange(start as int, j as int)),
        decreases end - j,
    {
        assert(p@.subrange(start as int, j + 1).drop_last() =~= p@.subrange(start as int, j as int));
        if p[j] > m {
            m = p[j];
        }
        j = j + 1;
    }
    m
}

fn window_mean(p: &Vec<i64>, start: usize, end: usize) -> (r: i64)
    requires
        start < end <= p@.len(),
    ensures
        r == floor_mean(p@.subrange(start as int, end as int)) as i64,
{
    let mut sum: i128 = 0;
    let mut j: usize = start;
    assert(p@.subrange(start as int, start as int) =~= Seq::<i64>::empty());
    while j < end
        invariant
            start <= j <= end <= p@.len(),
            sum == seq_sum(p@.subrange(start as int, j as int)),
            -(j - start) * 0x8000_0000_0000_0000 <= sum <= (j - start) * 0x7fff_ffff_ffff_ffff,
        decreases end - j,
    {
        assert(p@.subrange(start as int, j + 1).drop_last() =~= p@.subrange(start as int, j as int));
        assert(j - start < 0x1_0000_0000_0000_0000);
        sum = sum + p[j] as i128;
        j = j + 1;
    }
    let n: i128 = (end - start) as i128;
    assert(p@.subrange(start as int, end as int).len() == n);
    if sum >= 0 {
        let q: u128 = (sum as u128) / (n as u128);
        proof {
            lemma_fundamental_div_mod(sum as int, n as int);
            let rr = (sum as int) % (n as int);
            assert(q <= 0x7fff_ffff_ffff_ffff) by (nonlinear_arith)
                requires
                    sum == n * q + rr,
                    0 <= rr,
                    n > 0,
                    sum <= n * 0x7fff_ffff_ffff_ffff,
            ;
        }
        q as i64
    } else {
        let m: u128 = (-sum) as u128;
        proof {
            lemma_floor_div_negative(sum as int, n as int);
        }
        let q: u128 = (m + (n as u128) - 1) / (n as u128);
        proof {
            let t = m + n - 1;
            lemma_fundamental_div_mod(t as int, n as int);
            let rr = (t as int) % (n as int);
            assert(q <= 0x8000_0000_0000_0000) by (nonlinear_arith)
                requires
                    t == n * q + rr,
                    0 <= rr,
                    n > 0,
                    m <= n * 0x8000_0000_0000_0000,
                    t == m + n - 1,
            ;
        }
        (-(q as i128)) as i64
    }
}

/// Reduces `power_db` to `target_width` values, one per window.
pub fn downscale(power_db: &Vec<i64>, target_width: usize, mode: DownscaleMode) -> (r: Vec<i64>)
    ensures
        r@ == downscaled(power_db@, target_width as nat, mode),
{
    let len = power_db.len();
    if target_width == 0 {
        return Vec::new();
    }
    if target_width >= len {
        let mut out: Vec<i64> = Vec::new();
        let mut j: usize = 0;
        while j < len
            invariant
                j <= len == power_db@.len(),
                out@ == power_db@.take(j as int),
            decreases len - j,
        {
            out.push(power_db[j]);
            assert(power_db@.take(j + 1) =~= power_db@.take(j as int).push(power_db@[j as int]));
            j = j + 1;
        }
        assert(power_db@.take(len as int) =~= power_db@);
        return out;
    }
    let step = len / target_width;
    proof {
        lemma_fundamental_div_mod(len as int, target_width as int);
        lemma_mod_pos_bound(len as int, target_width as int);
        let rr = (len as int) % (target_width as int);
        assert(step >= 1) by (nonlinear_arith)
            requires
                len == target_width * step + rr,
                rr < target_width,
                target_width < len,
        ;
    }
    assert(target_width * step <= len) by (nonlinear_arith)
        requires
            step == len / target_width,
            target_width > 0,
    ;
    let mut out: Vec<i64> = Vec::new();
    let mut i: usize = 0;
    while i < target_width
        invariant
            0 < target_width < len == power_db@.len(),
            step == len / target_width,
            step >= 1,
            target_width * step <= len,
            i <= target_width,
            out@.len() == i,
            forall|k: int|
                0 <= k < i ==> out@[k] == reduce(
                    #[trigger] window(power_db@, target_width as nat, k),
                    mode,
                ),
        decreases target_width - i,
    {
        assert((i + 1) * step <= target_width * step) by (nonlinear_arith)
            requires
                i + 1 <= target_width,
                step >= 1,
        ;
        assert(i * step <= (i + 1) * step) by (nonlinear_arith)
            requires
                step >= 1,
        ;
        let start = i * step;
        let end = if i == target_width - 1 {
            len
        } else {
            (i + 1) * step
        };
        assert(start < end) by (nonlinear_arith)
            requires
                start == i * step,
                end == len || end == (i + 1) * step,
                (i + 1) * step <= len,
                step >= 1,
        ;
        assert(start == window_start(len as nat, target_width as nat, i as int));
        assert(end == window_end(len as nat, target_width as nat, i as int));
        let v = match mode {
            DownscaleMode::Peak => window_max(power_db, start, end),
            DownscaleMode::Average => window_mean(power_db, start, end),
        };
        out.push(v);
        i = i + 1;
    }
    assert(out@ =~= downscaled(power_db@, target_width as nat, mode));
    out
}


/// A target width no greater than the row's length gives exactly that many values.
pub proof fn lemma_downscaled_len(p: Seq<i64>, width: nat, mode: DownscaleMode)
    requires
        width <= p.len(),
    ensures
        downscaled(p, width, mode).len() == width,
{
}

pub open spec fn non_decreasing(s: Seq<i64>) -> bool {
    forall|i: int, j: int| 0 <= i <= j < s.len() ==> s[i] <= s[j]
}

proof fn lemma_max_of_non_decreasing(s: Seq<i64>)
    requires
        s.len() > 0,
        non_decreasing(s),
    ensures
        seq_max(s) == s.last(),
    decreases s.len(),
{
    if s.len() > 1 {
        let d = s.drop_last();
        assert(non_decreasing(d)) by {
            assert forall|i: int, j: int| 0 <= i <= j < d.len() implies d[i] <= d[j] by {
                assert(d[i] == s[i] && d[j] == s[j]);
            }
        }
        lemma_max_of_non_decreasing(d);
        assert(d.last() == s[s.len() - 2]);
    }
}

/// Peak reduction of a non-decreasing row gives the last reading of each
/// window, and so again a non-decreasing row.
pub proof fn lemma_peak_of_non_decreasing(p: Seq<i64>, width: nat)
    requires
        non_decreasing(p),
        0 < width <= p.len(),
    ensures
        forall|i: int|
            0 <= i < width ==> #[trigger] downscaled(p, width, DownscaleMode::Peak)[i] == p[window_end(
                p.len(),
                width,
                i,
            ) - 1],
        non_decreasing(downscaled(p, width, DownscaleMode::Peak)),
{
    let len = p.len();
    let step = len / width;
    let out = downscaled(p, width, DownscaleMode::Peak);
    lemma_fundamental_div_mod(len as int, width as int);
    lemma_mod_pos_bound(len as int, width as int);
    let rr = (len as int) % (width as int);
    assert(width * step <= len);
    if width == len {
        assert(step == 1) by (nonlinear_arith)
            requires
                len == width * step + rr,
                0 <= rr < width,
                width == len,
                width > 0,
        ;
        assert forall|i: int| 0 <= i < width implies #[trigger] out[i] == p[window_end(
            len,
            width,
            i,
        ) - 1] by {
            assert(window_end(len, width, i) == i + 1);
        }
    } else {
        assert(step >= 1) by (nonlinear_arith)
            requires
                len == width * step + rr,
                rr < width,
                width < len,
        ;
        assert forall|i: int| 0 <= i < width implies #[trigger] out[i] == p[window_end(
            len,
            width,
            i,
        ) - 1] by {
            let a = window_start(len, width, i);
            let b = window_end(len, width, i);
            assert(i * step < (i + 1) * step <= width * step) by (nonlinear_arith)
                requires
                    0 <= i < width,
                    step >= 1,
            ;
            assert(0 <= a < b <= len);
            let w = p.subrange(a, b);
            assert(non_decreasing(w)) by {
                assert forall|x: int, y: int| 0 <= x <= y < w.len() implies w[x] <= w[y] by {
                    assert(w[x] == p[a + x] && w[y] == p[a + y]);
                }
            }
            lemma_max_of_non_decreasing(w);
        }
    }
    assert forall|i: int, j: int| 0 <= i <= j < out.len() implies out[i] <= out[j] by {
        assert(window_end(len, width, i) <= window_end(len, width, j)) by {
            if j < width - 1 {
                assert((i + 1) * step <= (j + 1) * step) by (nonlinear_arith)
                    requires
                        i <= j,
                        step >= 0,
                ;
            } else {
                assert((i + 1) * step <= width * step) by (nonlinear_arith)
                    requires
                        i < width,
                        step >= 0,
                ;
            }
        }
        assert(window_end(len, width, j) <= len) by {
            if j < width - 1 {
                assert((j + 1) * step <= width * step) by (nonlinear_arith)
                    requires
                        j < width,
                        step >= 0,
                ;
            }
        }
        assert(out[i] == p[window_end(len, width, i) - 1]);
        assert(out[j] == p[window_end(len, width, j) - 1]);
        assert(1 <= window_end(len, width, i)) by {
            if i < width - 1 {
                assert((i + 1) * step >= 1) by (nonlinear_arith)
                    requires
                        i >= 0,
                        step >= 1,
                ;
            }
        }
    }
}


proof fn lemma_sum_bounds(s: Seq<i64>)
    requires
        s.len() > 0,
    ensures
        s.len() * seq_min(s) <= seq_sum(s) <= s.len() * seq_max(s),
    decreases s.len(),
{
    if s.len() == 1 {
        assert(s.drop_last().len() == 0);
        assert(seq_sum(s) == seq_sum(s.drop_last()) + s.last());
    } else {
        let d = s.drop_last();
        lemma_sum_bounds(d);
        let n = d.len() as int;
        let lo = seq_min(s) as int;
        let hi = seq_max(s) as int;
        assert(lo <= seq_min(d) && seq_max(d) <= hi);
        assert(lo <= s.last() <= hi);
        assert(n * lo <= n * seq_min(d)) by (nonlinear_arith)
            requires
                lo <= seq_min(d),
                n >= 0,
        ;
        assert(n * seq_max(d) <= n * hi) by (nonlinear_arith)
            requires
                seq_max(d) <= hi,
                n >= 0,
        ;
        assert((n + 1) * lo == n * lo + lo && (n + 1) * hi == n * hi + hi) by (nonlinear_arith);
    }
}

/// The mean of a window, rounded down, lies between its weakest and its
/// strongest reading, so it is always a reading that an `i64` holds.
pub proof fn lemma_mean_within(s: Seq<i64>)
    requires
        s.len() > 0,
    ensures
        seq_min(s) <= floor_mean(s) <= seq_max(s),
{
    lemma_sum_bounds(s);
    let n = s.len() as int;
    let q = floor_mean(s);
    lemma_fundamental_div_mod(seq_sum(s), n);
    lemma_mod_bound(seq_sum(s), n);
    let r = seq_sum(s) % n;
    assert(seq_min(s) <= q <= seq_max(s)) by (nonlinear_arith)
        requires
            seq_sum(s) == n * q + r,
            0 <= r < n,
            n * seq_min(s) <= seq_sum(s) <= n * seq_max(s),
            n > 0,
    ;
}

} // verus!
