use vstd::prelude::*;

use crate::fixed::Fixed;
use crate::numerals::{dec_digits, fixed2_bytes, fixed3_bytes, fmt_fixed2, fmt_fixed3, fmt_timestamp_bytes, fmt_u64, push_all, ts_bytes};
use crate::text::{bytes_to_text, lossy_utf8};
use crate::math::{
    div_to_zero, dispersion, floor_sqrt, isqrt_u128, lemma_constant_dispersion, lemma_floor_sqrt,
    lemma_sum_bounds, lemma_sum_sq_bounds, sum_milli, sum_sq_milli,
};
use crate::registry::evict_push;
use crate::text::{copy_range, eq_bytes};

verus! {

/// The values, in thousandths, that a buffer of timestamped points holds.
pub open spec fn vals_of(pts: Seq<(u64, Fixed)>) -> Seq<int> {
    pts.map_values(|p: (u64, Fixed)| p.1.milli as int)
}

/// `x` squared.
pub open spec fn sq(x: int) -> int {
    x * x
}

/// The exact Z-score test over a buffer that already includes the
/// candidate value `v`, with the threshold `t` in thousandths.
///
/// With `n` values, sum `S`, sum of squares `Q` and `D = n * Q - S * S`,
/// the textbook test `|v - mean| / std_dev > t / 1000` over `mean = S / n`
/// and `std_dev = sqrt(D) / n` is, for `std_dev > 0`, the same as
/// `1000000 * (n * v - S)^2 > t^2 * D`, and `std_dev > 0` is `D > 0`; this
/// states the test without rounding.
pub open spec fn is_spike(vals: Seq<int>, v: int, t: int) -> bool {
    &&& vals.len() >= 5
    &&& dispersion(vals) > 0
    &&& 1_000_000 * sq(vals.len() * v - sum_milli(vals)) > t * t * dispersion(vals)
}

/// The sum of squared offsets from any value is non-negative.
proof fn lemma_cross_bound(s: Seq<int>, v: int)
    ensures
        sum_sq_milli(s) + s.len() * (v * v) - 2 * v * sum_milli(s) >= 0,
    decreases s.len(),
{
    if s.len() > 0 {
        let dl = s.drop_last();
        lemma_cross_bound(dl, v);
        let u = s.last();
        assert(u * u + v * v - 2 * v * u >= 0) by (nonlinear_arith);
        assert(s.len() * (v * v) == dl.len() * (v * v) + v * v) by (nonlinear_arith)
            requires
                s.len() == dl.len() + 1,
        ;
        assert(2 * v * (sum_milli(dl) + u) == 2 * v * sum_milli(dl) + 2 * v * u)
            by (nonlinear_arith);
    }
}

/// The dispersion is never negative: it is `n` squared times a variance.
pub proof fn lemma_dispersion_nonneg(s: Seq<int>)
    ensures
        dispersion(s) >= 0,
    decreases s.len(),
{
    if s.len() == 0 {
    } else {
        let dl = s.drop_last();
        let v = s.last();
        lemma_dispersion_nonneg(dl);
        lemma_cross_bound(dl, v);
        let nd = dl.len() as int;
        let sd = sum_milli(dl);
        let qd = sum_sq_milli(dl);
        assert((nd + 1) * (qd + v * v) - (sd + v) * (sd + v) == (nd * qd - sd * sd) + (qd + nd * (v
            * v) - 2 * v * sd)) by (nonlinear_arith);
    }
}

/// A constant-valued buffer has zero dispersion, so its standard
/// deviation is zero and it yields no spike, whatever the threshold.
pub proof fn lemma_constant_no_spike(vals: Seq<int>, v: int, t: int)
    requires
        forall|i: int| 0 <= i < vals.len() ==> #[trigger] vals[i] == v,
    ensures
        dispersion(vals) == 0,
        !is_spike(vals, v, t),
{
    lemma_constant_dispersion(vals, v);
}

/// One detected statistical outlier, recorded with the statistics that
/// flagged it.
#[derive(Clone, Debug)]
pub struct SpikeInfo {
    /// The channel the outlier was seen on.
    pub sensor_name: Vec<u8>,
    /// The timestamp handed in with the value, in milliseconds.
    pub timestamp: u64,
    /// The outlying value.
    pub value: Fixed,
    /// The buffer mean at detection, rounded toward zero.
    pub mean: Fixed,
    /// The buffer standard deviation at detection, rounded toward zero.
    pub std_dev: Fixed,
}

/// Whether a spike record's statistics lie in the ranges the renderers
/// accept; every record the detector makes satisfies this.
pub open spec fn spike_wf(sp: SpikeInfo) -> bool {
    &&& sp.value.wf()
    &&& -20_000_000_000_000 <= sp.mean.milli <= 20_000_000_000_000
    &&& 0 <= sp.std_dev.milli <= 20_000_000_000_000
}

/// The index of the named buffer, or the length when the name is new.
pub open spec fn buf_index(bufs: Seq<(Vec<u8>, Vec<(u64, Fixed)>)>, name: Seq<u8>) -> int
    decreases bufs.len(),
{
    if bufs.len() == 0 {
        0
    } else if bufs[0].0@ == name {
        0
    } else {
        1 + buf_index(bufs.drop_first(), name)
    }
}

/// What `buf_index` returns: an in-range index, the named buffer where it
/// is in range, and no buffer of that name before it.
pub proof fn lemma_buf_index(bufs: Seq<(Vec<u8>, Vec<(u64, Fixed)>)>, name: Seq<u8>)
    ensures
        0 <= buf_index(bufs, name) <= bufs.len(),
        buf_index(bufs, name) < bufs.len() ==> bufs[buf_index(bufs, name)].0@ == name,
        forall|i: int| 0 <= i < buf_index(bufs, name) ==> bufs[i].0@ != name,
    decreases bufs.len(),
{
    if bufs.len() > 0 && bufs[0].0@ != name {
        lemma_buf_index(bufs.drop_first(), name);
        assert forall|i: int| 0 <= i < buf_index(bufs, name) implies bufs[i].0@ != name by {
            if i > 0 {
                assert(bufs.drop_first()[i - 1] == bufs[i]);
            }
        }
    }
}

/// Buffers sensor data per channel and flags statistical outliers with an
/// exact Z-score test.
///
/// The test window includes the candidate value itself, so a genuine
/// outlier pulls the mean and deviation toward itself and can mask
/// closely-following anomalies; that is a kept property of the design.
pub struct SpikeDetector {
    /// Per-channel rolling buffers of `(timestamp, value)`, in discovery
    /// order.
    pub buffers: Vec<(Vec<u8>, Vec<(u64, Fixed)>)>,
    /// The rolling-buffer capacity.
    pub max_points: usize,
    /// The Z-score threshold; a deviation strictly beyond it is a spike.
    pub z_threshold: Fixed,
    /// Every spike detected this session, in detection order.
    pub spikes: Vec<SpikeInfo>,
}

impl SpikeDetector {
    /// Whether the buffers are consistent: unique names, lengths within
    /// the capacity, values in range, and the capacity and threshold
    /// within the ranges the statistics need.
    pub open spec fn wf(self) -> bool {
        &&& self.max_points <= 10000
        &&& 0 <= self.z_threshold.milli <= 1_000_000
        &&& forall|i: int, j: int|
            0 <= i < j < self.buffers@.len() ==> (#[trigger] self.buffers@[i]).0@ != (
            #[trigger] self.buffers@[j]).0@
        &&& forall|i: int|
            0 <= i < self.buffers@.len() ==> (#[trigger] self.buffers@[i]).1@.len()
                <= self.max_points
        &&& forall|i: int, k: int|
            0 <= i < self.buffers@.len() && 0 <= k < self.buffers@[i].1@.len() ==> (
            #[trigger] self.buffers@[i].1@[k]).1.wf()
        &&& forall|i: int| 0 <= i < self.spikes@.len() ==> spike_wf(#[trigger] self.spikes@[i])
    }

    /// A detector with the default threshold of two standard deviations.
    pub fn new(max_points: usize) -> (r: SpikeDetector)
        requires
            max_points <= 10000,
        ensures
            r.wf(),
            r.buffers@ == Seq::<(Vec<u8>, Vec<(u64, Fixed)>)>::empty(),
            r.max_points == max_points,
            r.z_threshold.milli == 2000,
            r.spikes@ == Seq::<SpikeInfo>::empty(),
    {
        SpikeDetector {
            buffers: Vec::new(),
            max_points,
            z_threshold: Fixed { milli: 2000 },
            spikes: Vec::new(),
        }
    }

    /// A detector with a chosen threshold, in thousandths of a standard
    /// deviation.
    pub fn with_threshold(max_points: usize, z_threshold: Fixed) -> (r: SpikeDetector)
        requires
            max_points <= 10000,
            0 <= z_threshold.milli <= 1_000_000,
        ensures
            r.wf(),
            r.buffers@ == Seq::<(Vec<u8>, Vec<(u64, Fixed)>)>::empty(),
            r.max_points == max_points,
            r.z_threshold == z_threshold,
            r.spikes@ == Seq::<SpikeInfo>::empty(),
    {
        SpikeDetector { buffers: Vec::new(), max_points, z_threshold, spikes: Vec::new() }
    }

    /// Whether any spike has been detected this session.
    pub fn has_spikes(&self) -> (r: bool)
        ensures
            r == (self.spikes@.len() > 0),
    {
        self.spikes.len() > 0
    }
}

/// Computes the sum and the sum of squares of the buffered values, in
/// thousandths.
fn sums(buf: &Vec<(u64, Fixed)>) -> (r: (i128, i128))
    requires
        buf@.len() <= 10001,
        forall|i: int| 0 <= i < buf@.len() ==> (#[trigger] buf@[i]).1.wf(),
    ensures
        r.0 == sum_milli(vals_of(buf@)),
        r.1 == sum_sq_milli(vals_of(buf@)),
{
    let n = buf.len();
    let ghost vals = vals_of(buf@);
    let mut s: i128 = 0;
    let mut q: i128 = 0;
    let mut k: usize = 0;
    proof {
        assert(vals.take(0) =~= Seq::<int>::empty());
    }
    while k < n
        invariant
            0 <= k <= n,
            n == buf@.len() <= 10001,
            vals == vals_of(buf@),
            vals.len() == n,
            forall|i: int| 0 <= i < buf@.len() ==> (#[trigger] buf@[i]).1.wf(),
            s == sum_milli(vals.take(k as int)),
            q == sum_sq_milli(vals.take(k as int)),
            -(k as int) * 1_000_000_000 <= s <= (k as int) * 1_000_000_000,
            0 <= q <= (k as int) * 1_000_000_000_000_000_000,
        decreases n - k,
    {
        let v: i128 = buf[k].1.milli as i128;
        proof {
            assert(vals[k as int] == buf@[k as int].1.milli as int);
            assert(buf@[k as int].1.wf());
            assert(v * v <= 1_000_000_000_000_000_000) by (nonlinear_arith)
                requires
                    -1_000_000_000 <= v <= 1_000_000_000,
            ;
            assert(v * v >= 0) by (nonlinear_arith);
            assert(vals.take(k + 1).drop_last() =~= vals.take(k as int));
            assert(vals.take(k + 1).last() == vals[k as int]);
            assert((k as int) * 1_000_000_000 + 1_000_000_000 == (k + 1) * 1_000_000_000)
                by (nonlinear_arith);
            assert((k as int) * 1_000_000_000_000_000_000 + 1_000_000_000_000_000_000 == (k + 1)
                * 1_000_000_000_000_000_000) by (nonlinear_arith);
        }
        s = s + v;
        q = q + v * v;
        k = k + 1;
    }
    proof {
        assert(vals.take(n as int) =~= vals);
    }
    (s, q)
}

impl SpikeDetector {
    /// The mean and the population standard deviation of the buffered
    /// values, each rounded toward zero to a thousandth.
    pub fn compute_stats(buffer: &Vec<(u64, Fixed)>) -> (r: (Fixed, Fixed))
        requires
            1 <= buffer@.len() <= 10001,
            forall|i: int| 0 <= i < buffer@.len() ==> (#[trigger] buffer@[i]).1.wf(),
        ensures
            r.0.milli as int == div_to_zero(
                sum_milli(vals_of(buffer@)),
                buffer@.len() as int,
            ),
            r.1.milli as int == div_to_zero(
                floor_sqrt(dispersion(vals_of(buffer@))),
                buffer@.len() as int,
            ),
            -20_000_000_000_000 <= r.0.milli <= 20_000_000_000_000,
            0 <= r.1.milli <= 20_000_000_000_000,
    {
        let n = buffer.len();
        let ghost vals = vals_of(buffer@);
        let (s, q) = sums(buffer);
        proof {
            assert(vals.len() == n);
            assert(forall|i: int|
                0 <= i < vals.len() ==> -1_000_000_000 <= #[trigger] vals[i] <= 1_000_000_000);
            lemma_sum_bounds(vals, 1_000_000_000);
            lemma_sum_sq_bounds(vals, 1_000_000_000);
            lemma_dispersion_nonneg(vals);
            assert((n as int) * 1_000_000_000 <= 10001 * 1_000_000_000) by (nonlinear_arith)
                requires
                    n <= 10001,
            ;
            assert(s * s <= 10_001_000_000_000 * 10_001_000_000_000) by (nonlinear_arith)
                requires
                    -10_001_000_000_000 <= s <= 10_001_000_000_000,
            ;
            assert((n as int) * q <= 10001 * (10001 * 1_000_000_000_000_000_000))
                by (nonlinear_arith)
                requires
                    0 <= q <= 10001 * 1_000_000_000_000_000_000 && n <= 10001,
            ;
            assert((n as int) * 1_000_000_000_000_000_000 <= 10001 * 1_000_000_000_000_000_000)
                by (nonlinear_arith)
                requires
                    n <= 10001,
            ;
            assert(q <= (n as int) * 1_000_000_000_000_000_000) by {
                lemma_sum_sq_bounds(vals, 1_000_000_000);
            }
        }
        proof {
            assert(s * s >= 0) by (nonlinear_arith);
            assert((n as int) * q >= 0) by (nonlinear_arith)
                requires
                    q >= 0 && n >= 0,
            ;
        }
        let nn: i128 = n as i128;
        let d: i128 = nn * q - s * s;
        proof {
            assert(d == dispersion(vals));
            assert(d >= 0);
        }
        let mean_m: i64 = if s >= 0 {
            proof {
                assert((s as u128) / (n as u128) <= (s as u128)) by (nonlinear_arith)
                    requires
                        n >= 1,
                ;
            }
            (((s as u128) / (n as u128)) as i64)
        } else {
            proof {
                assert(((-s) as u128) / (n as u128) <= ((-s) as u128)) by (nonlinear_arith)
                    requires
                        n >= 1,
                ;
            }
            -((((-s) as u128) / (n as u128)) as i64)
        };
        let root: u64 = isqrt_u128(d as u128);
        proof {
            assert(root as int == floor_sqrt(d as int));
            lemma_floor_sqrt(d as int);
            assert((root as int) <= 20_000_000_000_000) by (nonlinear_arith)
                requires
                    0 <= root as int && (root as int) * (root as int) <= d as int && d
                        <= 200_000_000_000_000_000_000_000_000,
            ;
        }
        proof {
            assert(root / (n as u64) <= root) by (nonlinear_arith)
                requires
                    n >= 1,
            ;
        }
        let sd_m: i64 = (root / (n as u64)) as i64;
        (Fixed { milli: mean_m }, Fixed { milli: sd_m })
    }
}

/// Finds the named buffer.
fn find_index(bufs: &Vec<(Vec<u8>, Vec<(u64, Fixed)>)>, name: &[u8]) -> (idx: usize)
    ensures
        idx == buf_index(bufs@, name@),
{
    let n = bufs.len();
    let mut i: usize = 0;
    while i < n
        invariant
            0 <= i <= n,
            n == bufs@.len(),
            forall|t: int| 0 <= t < i ==> bufs@[t].0@ != name@,
        decreases n - i,
    {
        if eq_bytes(bufs[i].0.as_slice(), name) {
            proof {
                lemma_buf_index(bufs@, name@);
            }
            return i;
        }
        i = i + 1;
    }
    proof {
        lemma_buf_index(bufs@, name@);
    }
    n
}

impl SpikeDetector {
    /// Appends a point to the named channel's buffer, creating the
    /// channel on first sight; once the buffer (including the new point)
    /// holds five points, tests that very buffer for a spike and records
    /// any hit with a statistics snapshot; then evicts the buffer's
    /// oldest point past the capacity.
    ///
    /// A spike is recorded exactly when the buffer holds at least five
    /// points, its dispersion is positive, and the new value deviates
    /// from the buffer mean by strictly more than the threshold times the
    /// population standard deviation; no spike can be recorded before the
    /// buffer holds five points.
    pub fn add_point(&mut self, sensor_name: &[u8], timestamp: u64, value: Fixed)
        requires
            old(self).wf(),
            value.wf(),
        ensures
            final(self).wf(),
            final(self).max_points == old(self).max_points,
            final(self).z_threshold == old(self).z_threshold,
            ({
                let bufs0 = old(self).buffers@;
                let i0 = buf_index(bufs0, sensor_name@);
                let oldpts = if i0 < bufs0.len() {
                    bufs0[i0].1@
                } else {
                    Seq::<(u64, Fixed)>::empty()
                };
                let merged = vals_of(oldpts.push((timestamp, value)));
                &&& final(self).buffers@.len() == if i0 < bufs0.len() {
                    bufs0.len()
                } else {
                    bufs0.len() + 1
                }
                &&& forall|j: int|
                    0 <= j < bufs0.len() && j != i0 ==> final(self).buffers@[j] == bufs0[j]
                &&& final(self).buffers@[i0].0@ == sensor_name@
                &&& final(self).buffers@[i0].1@ == evict_push(
                    oldpts,
                    timestamp,
                    value,
                    old(self).max_points as nat,
                )
                &&& if is_spike(merged, value.milli as int, old(self).z_threshold.milli as int) {
                    &&& final(self).spikes@.len() == old(self).spikes@.len() + 1
                    &&& final(self).spikes@.drop_last() == old(self).spikes@
                    &&& final(self).spikes@.last().sensor_name@ == sensor_name@
                    &&& final(self).spikes@.last().timestamp == timestamp
                    &&& final(self).spikes@.last().value == value
                    &&& final(self).spikes@.last().mean.milli as int == div_to_zero(
                        sum_milli(merged),
                        merged.len() as int,
                    )
                    &&& final(self).spikes@.last().std_dev.milli as int == div_to_zero(
                        floor_sqrt(dispersion(merged)),
                        merged.len() as int,
                    )
                } else {
                    final(self).spikes@ == old(self).spikes@
                }
                &&& merged.len() < 5 ==> final(self).spikes@ == old(self).spikes@
            }),
    {
        let idx = find_index(&self.buffers, sensor_name);
        let cap = self.max_points;
        let ghost bufs0 = self.buffers@;
        proof {
            lemma_buf_index(bufs0, sensor_name@);
        }
        if idx == self.buffers.len() {
            let nm0 = copy_range(sensor_name, 0, sensor_name.len());
            proof {
                assert(nm0@ =~= sensor_name@);
            }
            self.buffers.push((nm0, Vec::new()));
        }
        let ghost bufs1 = self.buffers@;
        let pair = self.buffers.remove(idx);
        let nm = pair.0;
        let mut buf = pair.1;
        let ghost pts0 = buf@;
        proof {
            if idx < bufs0.len() {
                assert(pts0 == bufs0[idx as int].1@);
            } else {
                assert(pts0 =~= Seq::<(u64, Fixed)>::empty());
            }
            assert(forall|k: int| 0 <= k < pts0.len() ==> (#[trigger] pts0[k]).1.wf());
            assert(pts0.len() <= cap);
        }
        buf.push((timestamp, value));
        let ghost mergedp = buf@;
        let ghost merged = vals_of(mergedp);
        proof {
            assert(mergedp == pts0.push((timestamp, value)));
            assert(forall|k: int| 0 <= k < mergedp.len() ==> (#[trigger] mergedp[k]).1.wf());
            assert(forall|k: int|
                0 <= k < merged.len() ==> -1_000_000_000 <= #[trigger] merged[k]
                    <= 1_000_000_000) by {
                assert(forall|k: int|
                    0 <= k < merged.len() ==> merged[k] == (#[trigger] mergedp[k]).1.milli as int);
            }
        }
        let blen = buf.len();
        if blen >= 5 {
            let (s, q) = sums(&buf);
            proof {
                lemma_sum_bounds(merged, 1_000_000_000);
                lemma_sum_sq_bounds(merged, 1_000_000_000);
                assert(merged.len() == blen);
                assert((blen as int) * 1_000_000_000 <= 10_001_000_000_000) by (nonlinear_arith)
                    requires
                        blen <= 10001,
                ;
                assert((blen as int) * 1_000_000_000_000_000_000 <= 10001
                    * 1_000_000_000_000_000_000) by (nonlinear_arith)
                    requires
                        blen <= 10001,
                ;
                assert(s * s >= 0) by (nonlinear_arith);
                assert(s * s <= 10_001_000_000_000 * 10_001_000_000_000) by (nonlinear_arith)
                    requires
                        -10_001_000_000_000 <= s <= 10_001_000_000_000,
                ;
                assert(0 <= (blen as int) * q <= 10001 * (10001 * 1_000_000_000_000_000_000))
                    by (nonlinear_arith)
                    requires
                        0 <= q <= 10001 * 1_000_000_000_000_000_000 && 0 <= blen <= 10001,
                ;
            }
            let nn: i128 = blen as i128;
            let d: i128 = nn * q - s * s;
            proof {
                assert(d == dispersion(merged));
            }
            if d > 0 {
                proof {
                    assert(-10_001_000_000_000 <= nn * (value.milli as i128)
                        <= 10_001_000_000_000) by (nonlinear_arith)
                        requires
                            0 <= nn <= 10001 && -1_000_000_000 <= value.milli as i128
                                <= 1_000_000_000,
                    ;
                }
                let dz: i128 = nn * (value.milli as i128) - s;
                proof {
                    assert(0 <= dz * dz <= 20_002_000_000_000 * 20_002_000_000_000)
                        by (nonlinear_arith)
                        requires
                            -20_002_000_000_000 <= dz <= 20_002_000_000_000,
                    ;
                }
                let dz2: i128 = dz * dz;
                let lhs: u128 = 1_000_000u128 * (dz2 as u128);
                let t: i128 = self.z_threshold.milli as i128;
                proof {
                    assert(0 <= t * t <= 1_000_000_000_000) by (nonlinear_arith)
                        requires
                            0 <= t <= 1_000_000,
                    ;
                    assert((t * t) as u128 * (d as u128) <= 1_000_000_000_000 * (
                    200_000_000_000_000_000_000_000_000u128)) by (nonlinear_arith)
                        requires
                            0 <= (t * t) as u128 <= 1_000_000_000_000 && 0 < d as u128
                                <= 200_000_000_000_000_000_000_000_000,
                    ;
                }
                let rhs: u128 = ((t * t) as u128) * (d as u128);
                if lhs > rhs {
                    let stats = Self::compute_stats(&buf);
                    let snm = copy_range(sensor_name, 0, sensor_name.len());
                    proof {
                        assert(snm@ =~= sensor_name@);
                        assert(is_spike(
                            merged,
                            value.milli as int,
                            self.z_threshold.milli as int,
                        ));
                    }
                    self.spikes.push(
                        SpikeInfo {
                            sensor_name: snm,
                            timestamp,
                            value,
                            mean: stats.0,
                            std_dev: stats.1,
                        },
                    );
                    proof {
                        assert(self.spikes@.drop_last() =~= old(self).spikes@);
                    }
                } else {
                    proof {
                        assert(!is_spike(
                            merged,
                            value.milli as int,
                            self.z_threshold.milli as int,
                        ));
                    }
                }
            } else {
                proof {
                    assert(!is_spike(merged, value.milli as int, self.z_threshold.milli as int));
                }
            }
        } else {
            proof {
                assert(!is_spike(merged, value.milli as int, self.z_threshold.milli as int));
            }
        }
        if buf.len() > cap {
            buf.remove(0);
            proof {
                assert(buf@ =~= evict_push(pts0, timestamp, value, cap as nat));
            }
        } else {
            proof {
                assert(buf@ =~= evict_push(pts0, timestamp, value, cap as nat));
            }
        }
        let ghost bufv = buf@;
        let ghost nmv = nm@;
        self.buffers.insert(idx, (nm, buf));
        proof {
            assert(self.buffers@ =~= bufs1.update(idx as int, (
                self.buffers@[idx as int].0,
                self.buffers@[idx as int].1,
            )));
            assert(self.buffers@[idx as int].0@ == nmv);
            assert(self.buffers@[idx as int].1@ == bufv);
            assert(nmv == sensor_name@);
            if idx < bufs0.len() {
                assert(forall|j: int|
                    0 <= j < bufs0.len() && j != idx ==> self.buffers@[j] == bufs0[j]);
            } else {
                assert(bufs1.drop_last() =~= bufs0);
                assert(forall|j: int|
                    0 <= j < bufs0.len() ==> bufs1[j] == bufs0[j]);
                assert(forall|j: int|
                    0 <= j < bufs0.len() && j != idx ==> self.buffers@[j] == bufs0[j]);
            }
            assert forall|i: int, j: int|
                0 <= i < j < self.buffers@.len() implies (#[trigger] self.buffers@[i]).0@ != (
            #[trigger] self.buffers@[j]).0@ by {
                if idx < bufs0.len() {
                    assert(self.buffers@[i].0@ == bufs0[i].0@);
                    assert(self.buffers@[j].0@ == bufs0[j].0@);
                } else {
                    if i != idx && j != idx {
                        assert(self.buffers@[i].0@ == bufs0[i].0@);
                        assert(self.buffers@[j].0@ == bufs0[j].0@);
                    } else {
                        assert(self.buffers@[i].0@ == (if i == idx {
                            sensor_name@
                        } else {
                            bufs0[i].0@
                        }));
                    }
                }
            }
            assert forall|i: int|
                0 <= i < self.buffers@.len() implies (#[trigger] self.buffers@[i]).1@.len()
                <= self.max_points by {
                if i != idx {
                    assert(self.buffers@[i] == bufs0[i]);
                }
            }
            assert forall|i: int, k: int|
                0 <= i < self.buffers@.len() && 0 <= k < self.buffers@[i].1@.len() implies (
            #[trigger] self.buffers@[i].1@[k]).1.wf() by {
                if i != idx {
                    assert(self.buffers@[i] == bufs0[i]);
                }
            }
        }
    }
}

/// The bytes of "\n--- ".
pub open spec fn lit_hdr_open() -> Seq<u8> {
    seq![10u8, 45, 45, 45, 32]
}

/// The bytes of " (".
pub open spec fn lit_hdr_mid() -> Seq<u8> {
    seq![32u8, 40]
}

/// The bytes of " points) ---\n".
pub open spec fn lit_hdr_close() -> Seq<u8> {
    seq![32u8, 112, 111, 105, 110, 116, 115, 41, 32, 45, 45, 45, 10]
}

/// The bytes of "  t=".
pub open spec fn lit_point_t() -> Seq<u8> {
    seq![32u8, 32, 116, 61]
}

/// The bytes of ": ".
pub open spec fn lit_point_sep() -> Seq<u8> {
    seq![58u8, 32]
}

/// The bytes of "- Sensor '".
pub open spec fn lit_spike_a() -> Seq<u8> {
    seq![45u8, 32, 83, 101, 110, 115, 111, 114, 32, 39]
}

/// The bytes of "' spiked at t=".
pub open spec fn lit_spike_b() -> Seq<u8> {
    seq![39u8, 32, 115, 112, 105, 107, 101, 100, 32, 97, 116, 32, 116, 61]
}

/// The bytes of " with value ".
pub open spec fn lit_spike_c() -> Seq<u8> {
    seq![32u8, 119, 105, 116, 104, 32, 118, 97, 108, 117, 101, 32]
}

/// The bytes of " (mean=".
pub open spec fn lit_spike_d() -> Seq<u8> {
    seq![32u8, 40, 109, 101, 97, 110, 61]
}

/// The bytes of ", std_dev=".
pub open spec fn lit_spike_e() -> Seq<u8> {
    seq![44u8, 32, 115, 116, 100, 95, 100, 101, 118, 61]
}

/// The bytes of ", z-score=".
pub open spec fn lit_spike_f() -> Seq<u8> {
    seq![44u8, 32, 122, 45, 115, 99, 111, 114, 101, 61]
}

/// The bytes of ")\n".
pub open spec fn lit_spike_g() -> Seq<u8> {
    seq![41u8, 10]
}

/// The bytes of "inf".
pub open spec fn lit_inf() -> Seq<u8> {
    seq![105u8, 110, 102]
}

/// The most recent fifty points of a buffer, or all of them when it holds
/// fewer.
pub open spec fn recent_pts(pts: Seq<(u64, Fixed)>) -> Seq<(u64, Fixed)> {
    if pts.len() > 50 {
        pts.skip(pts.len() - 50)
    } else {
        pts
    }
}

/// One line of the data summary: the point's timestamp and value.
pub open spec fn point_line(p: (u64, Fixed)) -> Seq<u8> {
    lit_point_t() + ts_bytes(p.0 as int) + lit_point_sep() + fixed3_bytes(p.1.milli as int)
        + seq![10u8]
}

/// The lines of the shown points of one buffer, oldest first.
pub open spec fn points_lines(pts: Seq<(u64, Fixed)>) -> Seq<u8>
    decreases pts.len(),
{
    if pts.len() == 0 {
        Seq::<u8>::empty()
    } else {
        points_lines(pts.drop_last()) + point_line(pts.last())
    }
}

/// One channel's block of the data summary: a header with the name and
/// the point count, then the most recent fifty points.
pub open spec fn chan_block(name: Seq<u8>, pts: Seq<(u64, Fixed)>) -> Seq<u8> {
    lit_hdr_open() + name + lit_hdr_mid() + dec_digits(pts.len()) + lit_hdr_close() + points_lines(
        recent_pts(pts),
    )
}

/// The whole data summary, one block per channel in discovery order.
pub open spec fn summary_bytes(bufs: Seq<(Vec<u8>, Vec<(u64, Fixed)>)>) -> Seq<u8>
    decreases bufs.len(),
{
    if bufs.len() == 0 {
        Seq::<u8>::empty()
    } else {
        summary_bytes(bufs.drop_last()) + chan_block(bufs.last().0@, bufs.last().1@)
    }
}

/// The re-derived z-score of a recorded spike, in thousandths rounded
/// toward zero; with a zero recorded deviation the score is shown as
/// "inf".
pub open spec fn spike_z_bytes(sp: SpikeInfo) -> Seq<u8> {
    if sp.std_dev.milli == 0 {
        lit_inf()
    } else {
        fixed2_bytes(
            div_to_zero((sp.value.milli - sp.mean.milli) * 1000, sp.std_dev.milli as int),
        )
    }
}

/// One line of the spike listing.
pub open spec fn spike_line(sp: SpikeInfo) -> Seq<u8> {
    lit_spike_a() + sp.sensor_name@ + lit_spike_b() + ts_bytes(sp.timestamp as int)
        + lit_spike_c() + fixed3_bytes(sp.value.milli as int) + lit_spike_d() + fixed3_bytes(
        sp.mean.milli as int,
    ) + lit_spike_e() + fixed3_bytes(sp.std_dev.milli as int) + lit_spike_f() + spike_z_bytes(sp)
        + lit_spike_g()
}

/// The whole spike listing, in detection order.
pub open spec fn spikes_bytes(sps: Seq<SpikeInfo>) -> Seq<u8>
    decreases sps.len(),
{
    if sps.len() == 0 {
        Seq::<u8>::empty()
    } else {
        spikes_bytes(sps.drop_last()) + spike_line(sps.last())
    }
}

impl SpikeDetector {
    /// A listing of each channel's most recent fifty buffered points, for
    /// inclusion in an explanation prompt.
    pub fn get_data_summary(&self) -> (r: String)
        requires
            self.wf(),
        ensures
            r@ == lossy_utf8(summary_bytes(self.buffers@)),
    {
        let mut out: Vec<u8> = Vec::new();
        let nch = self.buffers.len();
        let mut i: usize = 0;
        proof {
            assert(self.buffers@.take(0) =~= Seq::<(Vec<u8>, Vec<(u64, Fixed)>)>::empty());
            assert(out@ =~= summary_bytes(self.buffers@.take(0)));
        }
        while i < nch
            invariant
                0 <= i <= nch,
                nch == self.buffers@.len(),
                self.wf(),
                out@ == summary_bytes(self.buffers@.take(i as int)),
            decreases nch - i,
        {
            let ghost pre = out@;
            let l1: Vec<u8> = vec![10, 45, 45, 45, 32];
            push_all(&mut out, l1.as_slice());
            push_all(&mut out, self.buffers[i].0.as_slice());
            let l2: Vec<u8> = vec![32, 40];
            push_all(&mut out, l2.as_slice());
            let cnt = fmt_u64(self.buffers[i].1.len() as u64);
            push_all(&mut out, cnt.as_slice());
            let l3: Vec<u8> = vec![32, 112, 111, 105, 110, 116, 115, 41, 32, 45, 45, 45, 10];
            push_all(&mut out, l3.as_slice());
            let ghost name = self.buffers@[i as int].0@;
            let ghost pts = self.buffers@[i as int].1@;
            proof {
                assert(l1@ =~= lit_hdr_open());
                assert(l2@ =~= lit_hdr_mid());
                assert(l3@ =~= lit_hdr_close());
                assert(out@ =~= pre + lit_hdr_open() + name + lit_hdr_mid() + dec_digits(
                    pts.len(),
                ) + lit_hdr_close());
            }
            let plen = self.buffers[i].1.len();
            let start: usize = if plen > 50 {
                plen - 50
            } else {
                0
            };
            let ghost rec = recent_pts(pts);
            let ghost hdr = out@;
            proof {
                assert(rec =~= pts.skip(start as int));
                assert(rec.take(0) =~= Seq::<(u64, Fixed)>::empty());
                assert(out@ =~= hdr + points_lines(rec.take(0)));
            }
            let mut j: usize = start;
            while j < plen
                invariant
                    start <= j <= plen,
                    i < nch,
                    nch == self.buffers@.len(),
                    plen == self.buffers@[i as int].1@.len(),
                    pts == self.buffers@[i as int].1@,
                    start as int == if plen > 50 {
                        plen - 50
                    } else {
                        0int
                    },
                    self.wf(),
                    rec == recent_pts(pts),
                    rec == pts.skip(start as int),
                    out@ == hdr + points_lines(rec.take(j - start)),
                decreases plen - j,
            {
                let l4: Vec<u8> = vec![32, 32, 116, 61];
                push_all(&mut out, l4.as_slice());
                let ts = fmt_timestamp_bytes(self.buffers[i].1[j].0);
                push_all(&mut out, ts.as_slice());
                let l5: Vec<u8> = vec![58, 32];
                push_all(&mut out, l5.as_slice());
                proof {
                    assert(self.buffers@[i as int].1@[j as int].1.wf());
                }
                let valb = fmt_fixed3(self.buffers[i].1[j].1);
                push_all(&mut out, valb.as_slice());
                out.push(10);
                j = j + 1;
                proof {
                    assert(l4@ =~= lit_point_t());
                    assert(l5@ =~= lit_point_sep());
                    assert(rec.take(j - start) =~= rec.take(j - 1 - start).push(
                        rec[j - 1 - start],
                    ));
                    assert(rec.take(j - start).drop_last() =~= rec.take(j - 1 - start));
                    assert(rec[j - 1 - start] == pts[j - 1]);
                    assert(out@ =~= hdr + points_lines(rec.take(j - start)));
                }
            }
            i = i + 1;
            proof {
                assert(rec.take(plen - start) =~= rec);
                assert(self.buffers@.take(i as int).drop_last() =~= self.buffers@.take(i - 1));
                assert(self.buffers@.take(i as int).last() == self.buffers@[i - 1]);
                assert(out@ =~= summary_bytes(self.buffers@.take(i as int)));
            }
        }
        proof {
            assert(self.buffers@.take(nch as int) =~= self.buffers@);
        }
        bytes_to_text(&out)
    }

    /// A listing of every recorded spike with its statistics and its
    /// re-derived z-score, for inclusion in an explanation prompt.
    #[verifier::rlimit(100)]
    pub fn format_spikes_for_prompt(&self) -> (r: String)
        requires
            self.wf(),
        ensures
            r@ == lossy_utf8(spikes_bytes(self.spikes@)),
    {
        let mut out: Vec<u8> = Vec::new();
        let nsp = self.spikes.len();
        let mut i: usize = 0;
        proof {
            assert(self.spikes@.take(0) =~= Seq::<SpikeInfo>::empty());
            assert(out@ =~= spikes_bytes(self.spikes@.take(0)));
        }
        while i < nsp
            invariant
                0 <= i <= nsp,
                nsp == self.spikes@.len(),
                self.wf(),
                out@ == spikes_bytes(self.spikes@.take(i as int)),
            decreases nsp - i,
        {
            let ghost pre = out@;
            proof {
                assert(spike_wf(self.spikes@[i as int]));
            }
            let l1: Vec<u8> = vec![45, 32, 83, 101, 110, 115, 111, 114, 32, 39];
            push_all(&mut out, l1.as_slice());
            push_all(&mut out, self.spikes[i].sensor_name.as_slice());
            let l2: Vec<u8> = vec![39, 32, 115, 112, 105, 107, 101, 100, 32, 97, 116, 32, 116, 61];
            push_all(&mut out, l2.as_slice());
            let ts = fmt_timestamp_bytes(self.spikes[i].timestamp);
            push_all(&mut out, ts.as_slice());
            let l3: Vec<u8> = vec![32, 119, 105, 116, 104, 32, 118, 97, 108, 117, 101, 32];
            push_all(&mut out, l3.as_slice());
            let vb = fmt_fixed3(self.spikes[i].value);
            push_all(&mut out, vb.as_slice());
            let l4: Vec<u8> = vec![32, 40, 109, 101, 97, 110, 61];
            push_all(&mut out, l4.as_slice());
            let mb = fmt_fixed3(self.spikes[i].mean);
            push_all(&mut out, mb.as_slice());
            let l5: Vec<u8> = vec![44, 32, 115, 116, 100, 95, 100, 101, 118, 61];
            push_all(&mut out, l5.as_slice());
            let sb = fmt_fixed3(self.spikes[i].std_dev);
            push_all(&mut out, sb.as_slice());
            let l6: Vec<u8> = vec![44, 32, 122, 45, 115, 99, 111, 114, 101, 61];
            push_all(&mut out, l6.as_slice());
            let diff: i64 = self.spikes[i].value.milli - self.spikes[i].mean.milli;
            let sdm: i64 = self.spikes[i].std_dev.milli;
            let zb: Vec<u8>;
            if sdm == 0 {
                zb = vec![105, 110, 102];
                proof {
                    assert(zb@ =~= lit_inf());
                }
            } else {
                let zm: i64 = if diff >= 0 {
                    proof {
                        assert(((diff as int) * 1000) / (sdm as int) <= (diff as int) * 1000
                            && ((diff as int) * 1000) / (sdm as int) >= 0) by (nonlinear_arith)
                            requires
                                sdm >= 1 && diff >= 0,
                        ;
                    }
                    ((((diff as i128) * 1000) / (sdm as i128)) as i64)
                } else {
                    proof {
                        assert((((-diff) as int) * 1000) / (sdm as int) <= ((-diff) as int) * 1000
                            && (((-diff) as int) * 1000) / (sdm as int) >= 0) by (nonlinear_arith)
                            requires
                                sdm >= 1 && diff < 0,
                        ;
                    }
                    -(((((-diff) as i128) * 1000) / (sdm as i128)) as i64)
                };
                proof {
                    assert(zm as int == div_to_zero(
                        (self.spikes@[i as int].value.milli - self.spikes@[i as int].mean.milli)
                            * 1000,
                        self.spikes@[i as int].std_dev.milli as int,
                    ));
                }
                zb = fmt_fixed2(Fixed { milli: zm });
            }
            push_all(&mut out, zb.as_slice());
            let l7: Vec<u8> = vec![41, 10];
            push_all(&mut out, l7.as_slice());
            i = i + 1;
            proof {
                assert(l1@ =~= lit_spike_a());
                assert(l2@ =~= lit_spike_b());
                assert(l3@ =~= lit_spike_c());
                assert(l4@ =~= lit_spike_d());
                assert(l5@ =~= lit_spike_e());
                assert(l6@ =~= lit_spike_f());
                assert(l7@ =~= lit_spike_g());
                assert(zb@ == spike_z_bytes(self.spikes@[i - 1]));
                assert(self.spikes@.take(i as int).drop_last() =~= self.spikes@.take(i - 1));
                assert(self.spikes@.take(i as int).last() == self.spikes@[i - 1]);
                assert(out@ =~= pre + spike_line(self.spikes@[i - 1]));
                assert(out@ =~= spikes_bytes(self.spikes@.take(i as int)));
            }
        }
        proof {
            assert(self.spikes@.take(nsp as int) =~= self.spikes@);
        }
        bytes_to_text(&out)
    }
}

} // verus!
