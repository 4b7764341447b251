use vstd::prelude::*;

use crate::fixed::Fixed;
use crate::numerals::{dec_digits, fixed2_bytes, fmt_fixed2, fmt_u64, lemma_dec_digits_ascii, lemma_fixed2_bytes_ascii, FMT_LIMIT_MILLI};
use crate::math::div_to_zero;
use crate::text::{ascii_chars, bytes_to_text};
use crate::text::{copy_range, eq_bytes};

verus! {

/// How many distinct display colors the palette holds.
pub const PALETTE_SIZE: usize = 8;

/// One discovered channel: its rolling buffer of chart points and its
/// running value bounds.
pub struct Channel {
    /// The channel name, as the classifier produced it.
    pub name: Vec<u8>,
    /// The palette slot assigned on discovery: insertion order modulo the
    /// palette size.
    pub color_id: usize,
    /// The buffered `(x, y)` points, oldest first.
    pub points: Vec<(u64, Fixed)>,
    /// The smallest value ever seen, kept even after its point is
    /// evicted; `None` until the first point arrives.
    pub min_y: Option<Fixed>,
    /// The largest value ever seen, kept likewise.
    pub max_y: Option<Fixed>,
}

/// A rolling-buffer step: append the new point, then evict the oldest
/// point when the buffer has outgrown its capacity.
pub open spec fn evict_push(pts: Seq<(u64, Fixed)>, x: u64, y: Fixed, cap: nat) -> Seq<
    (u64, Fixed),
> {
    let p = pts.push((x, y));
    if p.len() > cap {
        p.drop_first()
    } else {
        p
    }
}

/// The running minimum after seeing one more value.
pub open spec fn min_after(cur: Option<Fixed>, y: Fixed) -> Option<Fixed> {
    match cur {
        Some(m) => if m.milli <= y.milli {
            Some(m)
        } else {
            Some(y)
        },
        None => Some(y),
    }
}

/// The running maximum after seeing one more value.
pub open spec fn max_after(cur: Option<Fixed>, y: Fixed) -> Option<Fixed> {
    match cur {
        Some(m) => if m.milli >= y.milli {
            Some(m)
        } else {
            Some(y)
        },
        None => Some(y),
    }
}

impl Channel {
    /// Whether the channel's recorded values lie in the representable
    /// range and its bounds are consistent.
    pub open spec fn wf(self) -> bool {
        &&& forall|i: int| 0 <= i < self.points@.len() ==> (#[trigger] self.points@[i].1).wf()
        &&& (self.min_y is Some) == (self.max_y is Some)
        &&& match (self.min_y, self.max_y) {
            (Some(a), Some(b)) => a.wf() && b.wf() && a.milli <= b.milli,
            _ => true,
        }
    }

    /// Appends one point, updates the running bounds, and evicts the
    /// oldest point when the buffer has outgrown `max_points`.
    ///
    /// The running bounds only ever widen: eviction never re-tightens
    /// them.
    pub fn add_point(&mut self, x: u64, y: Fixed, max_points: usize)
        requires
            old(self).wf(),
            y.wf(),
        ensures
            final(self).wf(),
            final(self).name@ == old(self).name@,
            final(self).color_id == old(self).color_id,
            final(self).points@ == evict_push(old(self).points@, x, y, max_points as nat),
            final(self).min_y == min_after(old(self).min_y, y),
            final(self).max_y == max_after(old(self).max_y, y),
            old(self).min_y matches Some(m) ==> final(self).min_y matches Some(m2)
                && m2.milli <= m.milli,
            old(self).max_y matches Some(m) ==> final(self).max_y matches Some(m2)
                && m2.milli >= m.milli,
    {
        self.points.push((x, y));
        if self.points.len() > max_points {
            self.points.remove(0);
            proof {
                assert(self.points@ =~= evict_push(old(self).points@, x, y, max_points as nat));
            }
        }
        let new_min: Fixed = match self.min_y {
            Some(m) => if m.milli <= y.milli {
                m
            } else {
                y
            },
            None => y,
        };
        let new_max: Fixed = match self.max_y {
            Some(m) => if m.milli >= y.milli {
                m
            } else {
                y
            },
            None => y,
        };
        self.min_y = Some(new_min);
        self.max_y = Some(new_max);
    }
}

/// The buffer a fresh channel holds after a whole history of points has
/// been added through the rolling-buffer step.
pub open spec fn buffer_after(history: Seq<(u64, Fixed)>, cap: nat) -> Seq<(u64, Fixed)>
    decreases history.len(),
{
    if history.len() == 0 {
        Seq::<(u64, Fixed)>::empty()
    } else {
        evict_push(
            buffer_after(history.drop_last(), cap),
            history.last().0,
            history.last().1,
            cap,
        )
    }
}

/// The rolling-buffer law: after any sequence of added points the buffer
/// holds exactly the most recent `cap` of them, in insertion order, so
/// its length never exceeds `cap`.
pub proof fn lemma_rolling_buffer(history: Seq<(u64, Fixed)>, cap: nat)
    ensures
        buffer_after(history, cap).len() == if history.len() <= cap {
            history.len()
        } else {
            cap
        },
        buffer_after(history, cap) == history.skip(
            if history.len() <= cap {
                0
            } else {
                history.len() - cap
            },
        ),
    decreases history.len(),
{
    if history.len() > 0 {
        let dl = history.drop_last();
        lemma_rolling_buffer(dl, cap);
        let b0 = buffer_after(dl, cap);
        if b0.len() + 1 > cap {
            assert(buffer_after(history, cap) =~= history.skip(history.len() - cap));
        } else {
            assert(buffer_after(history, cap) =~= history.skip(
                if history.len() <= cap {
                    0int
                } else {
                    history.len() - cap
                },
            ));
        }
    }
}

/// The index of the named channel, or the length when the name is new.
pub open spec fn chan_index(chs: Seq<Channel>, name: Seq<u8>) -> int
    decreases chs.len(),
{
    if chs.len() == 0 {
        0
    } else if chs[0].name@ == name {
        0
    } else {
        1 + chan_index(chs.drop_first(), name)
    }
}

/// What `chan_index` returns: an in-range index, the named channel where
/// it is in range, and no channel of that name before it.
pub proof fn lemma_chan_index(chs: Seq<Channel>, name: Seq<u8>)
    ensures
        0 <= chan_index(chs, name) <= chs.len(),
        chan_index(chs, name) < chs.len() ==> chs[chan_index(chs, name)].name@ == name,
        forall|i: int| 0 <= i < chan_index(chs, name) ==> chs[i].name@ != name,
    decreases chs.len(),
{
    if chs.len() > 0 && chs[0].name@ != name {
        lemma_chan_index(chs.drop_first(), name);
        assert forall|i: int| 0 <= i < chan_index(chs, name) implies chs[i].name@ != name by {
            if i > 0 {
                assert(chs.drop_first()[i - 1] == chs[i]);
            }
        }
    }
}

/// Owns one rolling buffer and running bounds per discovered channel
/// name, in discovery order.
pub struct ChannelRegistry {
    channels: Vec<Channel>,
}

impl View for ChannelRegistry {
    type V = Seq<Channel>;

    closed spec fn view(&self) -> Seq<Channel> {
        self.channels@
    }
}

impl ChannelRegistry {
    /// Whether every channel is consistent, names are unique, and colors
    /// follow discovery order.
    pub open spec fn wf(self) -> bool {
        &&& forall|i: int, j: int|
            0 <= i < j < self@.len() ==> (#[trigger] self@[i]).name@ != (#[trigger] self@[j]).name@
        &&& forall|i: int| 0 <= i < self@.len() ==> (#[trigger] self@[i]).wf()
        &&& forall|i: int|
            0 <= i < self@.len() ==> (#[trigger] self@[i]).color_id == (i as usize)
                % PALETTE_SIZE
    }

    /// An empty registry.
    pub fn new() -> (r: ChannelRegistry)
        ensures
            r@ == Seq::<Channel>::empty(),
            r.wf(),
    {
        ChannelRegistry { channels: Vec::new() }
    }

    /// How many channels have been discovered.
    pub fn len(&self) -> (r: usize)
        ensures
            r == self@.len(),
    {
        self.channels.len()
    }

    /// The channel at a discovery index.
    pub fn channel_at(&self, i: usize) -> (r: &Channel)
        requires
            i < self@.len(),
        ensures
            *r == self@[i as int],
    {
        &self.channels[i]
    }

    /// Finds the named channel, creating it with the next palette color,
    /// an empty buffer and no bounds when the name is new; returns its
    /// index.
    pub fn ensure_channel(&mut self, name: &[u8]) -> (idx: usize)
        requires
            old(self).wf(),
        ensures
            final(self).wf(),
            idx == chan_index(old(self)@, name@),
            idx < final(self)@.len(),
            final(self)@[idx as int].name@ == name@,
            idx < old(self)@.len() ==> final(self)@ == old(self)@,
            idx == old(self)@.len() ==> {
                &&& final(self)@.len() == old(self)@.len() + 1
                &&& final(self)@.drop_last() == old(self)@
                &&& final(self)@[idx as int].color_id == (old(self)@.len() as usize) % PALETTE_SIZE
                &&& final(self)@[idx as int].points@ == Seq::<(u64, Fixed)>::empty()
                &&& final(self)@[idx as int].min_y is None
                &&& final(self)@[idx as int].max_y is None
            },
    {
        let n = self.channels.len();
        let mut i: usize = 0;
        while i < n
            invariant
                0 <= i <= n,
                n == self.channels@.len(),
                self@ == old(self)@,
                self.wf(),
                forall|t: int| 0 <= t < i ==> self.channels@[t].name@ != name@,
            decreases n - i,
        {
            if eq_bytes(self.channels[i].name.as_slice(), name) {
                proof {
                    lemma_chan_index(self.channels@, name@);
                }
                return i;
            }
            i = i + 1;
        }
        proof {
            lemma_chan_index(self.channels@, name@);
        }
        let owned = copy_range(name, 0, name.len());
        proof {
            assert(owned@ =~= name@);
        }
        let ch = Channel {
            name: owned,
            color_id: n % PALETTE_SIZE,
            points: Vec::new(),
            min_y: None,
            max_y: None,
        };
        self.channels.push(ch);
        proof {
            assert(final(self)@.drop_last() =~= old(self)@);
        }
        n
    }

    /// Routes one point into the named channel: appends it, updates the
    /// channel's running bounds, and evicts its oldest point past
    /// `max_points`; no other channel changes.
    pub fn add_point(&mut self, name: &[u8], x: u64, y: Fixed, max_points: usize)
        requires
            old(self).wf(),
            y.wf(),
        ensures
            final(self).wf(),
            ({
                let i0 = chan_index(old(self)@, name@);
                if i0 < old(self)@.len() {
                    &&& final(self)@.len() == old(self)@.len()
                    &&& forall|j: int|
                        0 <= j < old(self)@.len() && j != i0 ==> final(self)@[j] == old(self)@[j]
                    &&& final(self)@[i0].name@ == name@
                    &&& final(self)@[i0].color_id == old(self)@[i0].color_id
                    &&& final(self)@[i0].points@ == evict_push(
                        old(self)@[i0].points@,
                        x,
                        y,
                        max_points as nat,
                    )
                    &&& final(self)@[i0].min_y == min_after(old(self)@[i0].min_y, y)
                    &&& final(self)@[i0].max_y == max_after(old(self)@[i0].max_y, y)
                } else {
                    &&& final(self)@.len() == old(self)@.len() + 1
                    &&& forall|j: int|
                        0 <= j < old(self)@.len() ==> final(self)@[j] == old(self)@[j]
                    &&& final(self)@[i0].name@ == name@
                    &&& final(self)@[i0].color_id == (old(self)@.len() as usize) % PALETTE_SIZE
                    &&& final(self)@[i0].points@ == evict_push(
                        Seq::<(u64, Fixed)>::empty(),
                        x,
                        y,
                        max_points as nat,
                    )
                    &&& final(self)@[i0].min_y == Some(y)
                    &&& final(self)@[i0].max_y == Some(y)
                }
            }),
    {
        let idx = self.ensure_channel(name);
        let ghost s1 = self@;
        let mut ch = self.channels.remove(idx);
        let ghost ch0 = ch;
        ch.add_point(x, y, max_points);
        let ghost ch1 = ch;
        self.channels.insert(idx, ch);
        proof {
            assert(ch0 == s1[idx as int]);
            assert(self@ =~= s1.update(idx as int, ch1));
            lemma_chan_index(old(self)@, name@);
            let i0 = chan_index(old(self)@, name@);
            if i0 < old(self)@.len() {
                assert(s1 == old(self)@);
            } else {
                assert(s1.drop_last() == old(self)@);
                assert(forall|j: int| 0 <= j < old(self)@.len() ==> s1[j] == old(self)@[j]);
                assert(ch0.points@ == Seq::<(u64, Fixed)>::empty());
            }
            assert forall|t: int| 0 <= t < self@.len() implies (#[trigger] self@[t]).wf() by {
                if t != idx {
                    assert(self@[t] == s1[t]);
                }
            }
            assert forall|t: int|
                0 <= t < self@.len() implies (#[trigger] self@[t]).color_id == (t as usize)
                % PALETTE_SIZE by {
                if t != idx {
                    assert(self@[t] == s1[t]);
                }
            }
            assert forall|i: int, j: int|
                0 <= i < j < self@.len() implies (#[trigger] self@[i]).name@ != (
            #[trigger] self@[j]).name@ by {
                assert(self@[i].name@ == s1[i].name@);
                assert(self@[j].name@ == s1[j].name@);
            }
        }
    }
}

/// The smaller of two optional values, where absence loses.
pub open spec fn opt_min(a: Option<int>, b: Option<int>) -> Option<int> {
    match (a, b) {
        (Some(x), Some(y)) => if x <= y {
            Some(x)
        } else {
            Some(y)
        },
        (Some(x), None) => a,
        (None, _) => b,
    }
}

/// The larger of two optional values, where absence loses.
pub open spec fn opt_max(a: Option<int>, b: Option<int>) -> Option<int> {
    match (a, b) {
        (Some(x), Some(y)) => if x >= y {
            Some(x)
        } else {
            Some(y)
        },
        (Some(x), None) => a,
        (None, _) => b,
    }
}

/// The smallest first-point x over the non-empty channel buffers.
pub open spec fn x_lo(chs: Seq<Channel>) -> Option<int>
    decreases chs.len(),
{
    if chs.len() == 0 {
        None
    } else {
        opt_min(
            if chs[0].points@.len() > 0 {
                Some(chs[0].points@.first().0 as int)
            } else {
                None
            },
            x_lo(chs.drop_first()),
        )
    }
}

/// The largest last-point x over the non-empty channel buffers.
pub open spec fn x_hi(chs: Seq<Channel>) -> Option<int>
    decreases chs.len(),
{
    if chs.len() == 0 {
        None
    } else {
        opt_max(
            if chs[0].points@.len() > 0 {
                Some(chs[0].points@.last().0 as int)
            } else {
                None
            },
            x_hi(chs.drop_first()),
        )
    }
}

/// The smallest running minimum over the channels, in thousandths.
pub open spec fn y_lo(chs: Seq<Channel>) -> Option<int>
    decreases chs.len(),
{
    if chs.len() == 0 {
        None
    } else {
        opt_min(
            match chs[0].min_y {
                Some(m) => Some(m.milli as int),
                None => None,
            },
            y_lo(chs.drop_first()),
        )
    }
}

/// The largest running maximum over the channels, in thousandths.
pub open spec fn y_hi(chs: Seq<Channel>) -> Option<int>
    decreases chs.len(),
{
    if chs.len() == 0 {
        None
    } else {
        opt_max(
            match chs[0].max_y {
                Some(m) => Some(m.milli as int),
                None => None,
            },
            y_hi(chs.drop_first()),
        )
    }
}

/// The x-axis bounds: the extremes of the first and last x over all
/// non-empty buffers, falling back to `[0, 10]` with no data.
pub open spec fn spec_axis_x(chs: Seq<Channel>) -> (int, int) {
    match (x_lo(chs), x_hi(chs)) {
        (Some(a), Some(b)) => (a, b),
        _ => (0, 10),
    }
}

/// The y-axis bounds in thousandths: the global running extremes padded
/// by a tenth of the range, by one whole unit when the range is a single
/// value, and `[-1, 1]` units with no data.
pub open spec fn spec_axis_y(chs: Seq<Channel>) -> (int, int) {
    match (y_lo(chs), y_hi(chs)) {
        (Some(lo), Some(hi)) => if lo < hi {
            let pad = (hi - lo) / 10;
            (lo - pad, hi + pad)
        } else if lo == hi {
            (lo - 1000, hi + 1000)
        } else {
            (-1000, 1000)
        },
        _ => (-1000, 1000),
    }
}

/// The value of an optional sample index.
pub open spec fn oint_u(o: Option<u64>) -> Option<int> {
    match o {
        Some(v) => Some(v as int),
        None => None,
    }
}

/// The value of an optional count of thousandths.
pub open spec fn oint_i(o: Option<i64>) -> Option<int> {
    match o {
        Some(v) => Some(v as int),
        None => None,
    }
}

/// The chart axis bounds handed to a renderer.
#[derive(Clone, Copy, PartialEq, Eq, Structural, Debug)]
pub struct ChartBounds {
    /// The leftmost sample index shown.
    pub x_min: u64,
    /// The rightmost sample index shown.
    pub x_max: u64,
    /// The bottom of the value axis.
    pub y_min: Fixed,
    /// The top of the value axis.
    pub y_max: Fixed,
}

impl ChannelRegistry {
    /// Computes the chart axis bounds from the buffered points and the
    /// running value extremes.
    pub fn axis_bounds(&self) -> (r: ChartBounds)
        requires
            self.wf(),
        ensures
            r.x_min as int == spec_axis_x(self@).0,
            r.x_max as int == spec_axis_x(self@).1,
            r.y_min.milli as int == spec_axis_y(self@).0,
            r.y_max.milli as int == spec_axis_y(self@).1,
    {
        let n = self.channels.len();
        let mut xlo: Option<u64> = None;
        let mut xhi: Option<u64> = None;
        let mut ylo: Option<i64> = None;
        let mut yhi: Option<i64> = None;
        let mut i: usize = 0;
        proof {
            assert(self@.skip(0) =~= self@);
        }
        while i < n
            invariant
                0 <= i <= n,
                n == self@.len(),
                self.wf(),
                opt_min(oint_u(xlo), x_lo(self@.skip(i as int))) == x_lo(self@),
                opt_max(oint_u(xhi), x_hi(self@.skip(i as int))) == x_hi(self@),
                opt_min(oint_i(ylo), y_lo(self@.skip(i as int))) == y_lo(self@),
                opt_max(oint_i(yhi), y_hi(self@.skip(i as int))) == y_hi(self@),
                ylo matches Some(v) ==> -1_000_000_000 <= v <= 1_000_000_000,
                yhi matches Some(v) ==> -1_000_000_000 <= v <= 1_000_000_000,
            decreases n - i,
        {
            proof {
                assert(self@.skip(i as int)[0] == self@[i as int]);
                assert(self@.skip(i as int).drop_first() =~= self@.skip(i + 1));
            }
            let ch = &self.channels[i];
            if ch.points.len() > 0 {
                let fx = ch.points[0].0;
                let lx = ch.points[ch.points.len() - 1].0;
                xlo = match xlo {
                    Some(a) => if a <= fx {
                        Some(a)
                    } else {
                        Some(fx)
                    },
                    None => Some(fx),
                };
                xhi = match xhi {
                    Some(a) => if a >= lx {
                        Some(a)
                    } else {
                        Some(lx)
                    },
                    None => Some(lx),
                };
            }
            match ch.min_y {
                Some(m) => {
                    ylo = match ylo {
                        Some(a) => if a <= m.milli {
                            Some(a)
                        } else {
                            Some(m.milli)
                        },
                        None => Some(m.milli),
                    };
                },
                None => {},
            }
            match ch.max_y {
                Some(m) => {
                    yhi = match yhi {
                        Some(a) => if a >= m.milli {
                            Some(a)
                        } else {
                            Some(m.milli)
                        },
                        None => Some(m.milli),
                    };
                },
                None => {},
            }
            i = i + 1;
        }
        proof {
            assert(self@.skip(n as int) =~= Seq::<Channel>::empty());
        }
        let x_min: u64;
        let x_max: u64;
        match (xlo, xhi) {
            (Some(a), Some(b)) => {
                x_min = a;
                x_max = b;
            },
            _ => {
                x_min = 0;
                x_max = 10;
            },
        }
        let y_min_m: i64;
        let y_max_m: i64;
        match (ylo, yhi) {
            (Some(lo), Some(hi)) => {
                if lo < hi {
                    let pad = (hi - lo) / 10;
                    y_min_m = lo - pad;
                    y_max_m = hi + pad;
                } else if lo == hi {
                    y_min_m = lo - 1000;
                    y_max_m = hi + 1000;
                } else {
                    y_min_m = -1000;
                    y_max_m = 1000;
                }
            },
            _ => {
                y_min_m = -1000;
                y_max_m = 1000;
            },
        }
        ChartBounds {
            x_min,
            x_max,
            y_min: Fixed { milli: y_min_m },
            y_max: Fixed { milli: y_max_m },
        }
    }
}

impl ChartBounds {
    /// The three x-axis tick labels: the bounds and their midpoint, with
    /// no decimals.
    pub fn x_labels(&self) -> (r: (String, String, String))
        requires
            self.x_min <= self.x_max,
        ensures
            r.0@ == ascii_chars(dec_digits(self.x_min as nat)),
            r.1@ == ascii_chars(dec_digits((((self.x_min + self.x_max) / 2) as u64) as nat)),
            r.2@ == ascii_chars(dec_digits(self.x_max as nat)),
    {
        let mid: u64 = self.x_min + (self.x_max - self.x_min) / 2;
        proof {
            assert(mid == (self.x_min + self.x_max) / 2);
        }
        let lo = fmt_u64(self.x_min);
        let mi = fmt_u64(mid);
        let hi = fmt_u64(self.x_max);
        proof {
            lemma_dec_digits_ascii(self.x_min as nat);
            lemma_dec_digits_ascii(mid as nat);
            lemma_dec_digits_ascii(self.x_max as nat);
        }
        (bytes_to_text(&lo), bytes_to_text(&mi), bytes_to_text(&hi))
    }

    /// The three y-axis tick labels: the bounds and their midpoint
    /// (rounded toward zero), with two decimals.
    pub fn y_labels(&self) -> (r: (String, String, String))
        requires
            -FMT_LIMIT_MILLI <= self.y_min.milli <= FMT_LIMIT_MILLI,
            -FMT_LIMIT_MILLI <= self.y_max.milli <= FMT_LIMIT_MILLI,
        ensures
            r.0@ == ascii_chars(fixed2_bytes(self.y_min.milli as int)),
            r.1@ == ascii_chars(
                fixed2_bytes(div_to_zero(self.y_min.milli + self.y_max.milli, 2)),
            ),
            r.2@ == ascii_chars(fixed2_bytes(self.y_max.milli as int)),
    {
        let sum: i64 = self.y_min.milli + self.y_max.milli;
        let mid: i64 = if sum >= 0 {
            sum / 2
        } else {
            -((-sum) / 2)
        };
        let lo = fmt_fixed2(self.y_min);
        let mi = fmt_fixed2(Fixed { milli: mid });
        let hi = fmt_fixed2(self.y_max);
        proof {
            lemma_fixed2_bytes_ascii(self.y_min.milli as int);
            lemma_fixed2_bytes_ascii(mid as int);
            lemma_fixed2_bytes_ascii(self.y_max.milli as int);
        }
        (bytes_to_text(&lo), bytes_to_text(&mi), bytes_to_text(&hi))
    }
}

} // verus!
