use vstd::prelude::*;

use crate::classify::{classify_line, classify_spec, reading_views};
use crate::detector::{buf_index, is_spike, lemma_buf_index, vals_of, SpikeDetector, SpikeInfo};
use crate::fixed::Fixed;
use crate::framer::{frame_lines, frame_rest, LineFramer};
use crate::math::{dispersion, div_to_zero, floor_sqrt, sum_milli};
use crate::numerals::{push_all, ts_bytes};
use crate::registry::{
    chan_index, evict_push, lemma_chan_index, max_after, min_after, Channel, ChannelRegistry,
    PALETTE_SIZE,
};
use crate::text::{byte_views, bytes_to_text, is_ws, lossy_utf8, rtrim_by};

verus! {

/// The spec-level state of one channel: name, color, points and bounds.
pub open spec fn ch_model(c: Channel) -> (Seq<u8>, usize, Seq<(u64, Fixed)>, Option<Fixed>, Option<
    Fixed,
>) {
    (c.name@, c.color_id, c.points@, c.min_y, c.max_y)
}

/// The spec-level state of the whole registry.
pub open spec fn reg_model(chs: Seq<Channel>) -> Seq<
    (Seq<u8>, usize, Seq<(u64, Fixed)>, Option<Fixed>, Option<Fixed>),
> {
    chs.map_values(|c: Channel| ch_model(c))
}

/// The index of a name in a registry model, or its length when absent.
pub open spec fn rm_index(
    m: Seq<(Seq<u8>, usize, Seq<(u64, Fixed)>, Option<Fixed>, Option<Fixed>)>,
    name: Seq<u8>,
) -> int
    decreases m.len(),
{
    if m.len() == 0 {
        0
    } else if m[0].0 == name {
        0
    } else {
        1 + rm_index(m.drop_first(), name)
    }
}

/// The model index of a name agrees with the registry index.
pub proof fn lemma_rm_index(chs: Seq<Channel>, name: Seq<u8>)
    ensures
        rm_index(reg_model(chs), name) == chan_index(chs, name),
    decreases chs.len(),
{
    if chs.len() > 0 {
        assert(reg_model(chs)[0] == ch_model(chs[0]));
        if chs[0].name@ != name {
            lemma_rm_index(chs.drop_first(), name);
            assert(reg_model(chs).drop_first() =~= reg_model(chs.drop_first()));
        }
    }
}

/// Routing one reading into the registry model: the named channel gets
/// the point appended with eviction and its bounds widened; an unseen
/// name opens a fresh channel with the next palette color.
pub open spec fn route_step(
    m: Seq<(Seq<u8>, usize, Seq<(u64, Fixed)>, Option<Fixed>, Option<Fixed>)>,
    name: Seq<u8>,
    x: u64,
    y: Fixed,
    cap: nat,
) -> Seq<(Seq<u8>, usize, Seq<(u64, Fixed)>, Option<Fixed>, Option<Fixed>)> {
    let i = rm_index(m, name);
    if i < m.len() {
        let c = m[i];
        m.update(i, (c.0, c.1, evict_push(c.2, x, y, cap), min_after(c.3, y), max_after(c.4, y)))
    } else {
        m.push(
            (
                name,
                ((m.len() as usize) % PALETTE_SIZE) as usize,
                evict_push(Seq::<(u64, Fixed)>::empty(), x, y, cap),
                Some(y),
                Some(y),
            ),
        )
    }
}

/// Routing a whole list of readings into the registry model, in order,
/// all under one shared sample index.
pub open spec fn route_all(
    m: Seq<(Seq<u8>, usize, Seq<(u64, Fixed)>, Option<Fixed>, Option<Fixed>)>,
    rs: Seq<(Seq<u8>, int)>,
    x: u64,
    cap: nat,
) -> Seq<(Seq<u8>, usize, Seq<(u64, Fixed)>, Option<Fixed>, Option<Fixed>)>
    decreases rs.len(),
{
    if rs.len() == 0 {
        m
    } else {
        route_all(
            route_step(m, rs[0].0, x, Fixed { milli: rs[0].1 as i64 }, cap),
            rs.drop_first(),
            x,
            cap,
        )
    }
}

/// The spec-level state of the detector's buffers.
pub open spec fn det_model(bufs: Seq<(Vec<u8>, Vec<(u64, Fixed)>)>) -> Seq<
    (Seq<u8>, Seq<(u64, Fixed)>),
> {
    bufs.map_values(|b: (Vec<u8>, Vec<(u64, Fixed)>)| (b.0@, b.1@))
}

/// The spec-level state of one spike record.
pub open spec fn spike_model(sp: SpikeInfo) -> (Seq<u8>, u64, Fixed, Fixed, Fixed) {
    (sp.sensor_name@, sp.timestamp, sp.value, sp.mean, sp.std_dev)
}

/// The spec-level state of the spike log.
pub open spec fn spikes_model(sps: Seq<SpikeInfo>) -> Seq<(Seq<u8>, u64, Fixed, Fixed, Fixed)> {
    sps.map_values(|sp: SpikeInfo| spike_model(sp))
}

/// The index of a name in a detector model, or its length when absent.
pub open spec fn dm_index(m: Seq<(Seq<u8>, Seq<(u64, Fixed)>)>, name: Seq<u8>) -> int
    decreases m.len(),
{
    if m.len() == 0 {
        0
    } else if m[0].0 == name {
        0
    } else {
        1 + dm_index(m.drop_first(), name)
    }
}

/// The model index of a name agrees with the detector's buffer index.
pub proof fn lemma_dm_index(bufs: Seq<(Vec<u8>, Vec<(u64, Fixed)>)>, name: Seq<u8>)
    ensures
        dm_index(det_model(bufs), name) == buf_index(bufs, name),
    decreases bufs.len(),
{
    if bufs.len() > 0 {
        assert(det_model(bufs)[0] == (bufs[0].0@, bufs[0].1@));
        if bufs[0].0@ != name {
            lemma_dm_index(bufs.drop_first(), name);
            assert(det_model(bufs).drop_first() =~= det_model(bufs.drop_first()));
        }
    }
}

/// Routing one reading into the detector model: the point is appended to
/// the named buffer, the buffer including it is tested for a spike, any
/// hit is recorded with its statistics snapshot, and the oldest point is
/// evicted past the capacity.
pub open spec fn det_step(
    m: Seq<(Seq<u8>, Seq<(u64, Fixed)>)>,
    sps: Seq<(Seq<u8>, u64, Fixed, Fixed, Fixed)>,
    name: Seq<u8>,
    ts: u64,
    y: Fixed,
    cap: nat,
    t: int,
) -> (Seq<(Seq<u8>, Seq<(u64, Fixed)>)>, Seq<(Seq<u8>, u64, Fixed, Fixed, Fixed)>) {
    let i = dm_index(m, name);
    let oldpts = if i < m.len() {
        m[i].1
    } else {
        Seq::<(u64, Fixed)>::empty()
    };
    let merged = vals_of(oldpts.push((ts, y)));
    let m2 = if i < m.len() {
        m.update(i, (m[i].0, evict_push(oldpts, ts, y, cap)))
    } else {
        m.push((name, evict_push(Seq::<(u64, Fixed)>::empty(), ts, y, cap)))
    };
    let sps2 = if is_spike(merged, y.milli as int, t) {
        sps.push(
            (
                name,
                ts,
                y,
                Fixed { milli: div_to_zero(sum_milli(merged), merged.len() as int) as i64 },
                Fixed {
                    milli: div_to_zero(floor_sqrt(dispersion(merged)), merged.len() as int) as i64,
                },
            ),
        )
    } else {
        sps
    };
    (m2, sps2)
}

/// Routing a whole list of readings into the detector model, in order.
pub open spec fn det_all(
    m: Seq<(Seq<u8>, Seq<(u64, Fixed)>)>,
    sps: Seq<(Seq<u8>, u64, Fixed, Fixed, Fixed)>,
    rs: Seq<(Seq<u8>, int)>,
    ts: u64,
    cap: nat,
    t: int,
) -> (Seq<(Seq<u8>, Seq<(u64, Fixed)>)>, Seq<(Seq<u8>, u64, Fixed, Fixed, Fixed)>)
    decreases rs.len(),
{
    if rs.len() == 0 {
        (m, sps)
    } else {
        let stepped = det_step(m, sps, rs[0].0, ts, Fixed { milli: rs[0].1 as i64 }, cap, t);
        det_all(stepped.0, stepped.1, rs.drop_first(), ts, cap, t)
    }
}

/// Drives one monitoring session: frames bytes into lines, discards the
/// configured count of leading lines, classifies the rest, and routes
/// every reading into the channel registry and, when anomaly detection is
/// on, into the spike detector; one shared sample index advances once per
/// line that yields at least one reading.
pub struct Session {
    /// Turns raw bytes into complete lines.
    pub framer: LineFramer,
    /// The per-channel chart state.
    pub registry: ChannelRegistry,
    /// The per-channel anomaly state.
    pub detector: SpikeDetector,
    /// Whether readings are also routed into the detector.
    pub detect_spikes: bool,
    /// The shared sample index: the x coordinate of the next accepted
    /// line's readings.
    pub sample_index: u64,
    /// How many complete lines have been seen so far.
    pub lines_seen: u64,
    /// How many leading lines are discarded before classification.
    pub discard_lines: u64,
    /// The rolling-buffer capacity of the chart channels.
    pub max_points: usize,
}

impl Session {
    /// Whether the owned components are consistent.
    pub open spec fn wf(self) -> bool {
        &&& self.registry.wf()
        &&& self.detector.wf()
    }

    /// A fresh session: nothing buffered, nothing discovered, the sample
    /// index at zero.
    pub fn new(max_points: usize, discard_lines: u64, detect_spikes: bool) -> (r: Session)
        requires
            max_points <= 10000,
        ensures
            r.wf(),
            r.framer@ == Seq::<u8>::empty(),
            r.registry@ == Seq::<Channel>::empty(),
            r.detector.buffers@ == Seq::<(Vec<u8>, Vec<(u64, Fixed)>)>::empty(),
            r.detector.spikes@ == Seq::<SpikeInfo>::empty(),
            r.detector.max_points == max_points,
            r.detector.z_threshold.milli == 2000,
            r.detect_spikes == detect_spikes,
            r.sample_index == 0,
            r.lines_seen == 0,
            r.discard_lines == discard_lines,
            r.max_points == max_points,
    {
        Session {
            framer: LineFramer::new(),
            registry: ChannelRegistry::new(),
            detector: SpikeDetector::new(max_points),
            detect_spikes,
            sample_index: 0,
            lines_seen: 0,
            discard_lines,
            max_points,
        }
    }

    /// Feeds one complete line through the classifier and routes its
    /// readings, unless the line falls within the configured leading
    /// discard; the shared sample index advances exactly once when the
    /// line yields at least one reading, however many it yields.
    pub fn process_line(&mut self, line: &[u8], timestamp_ms: u64)
        requires
            old(self).wf(),
            old(self).lines_seen < u64::MAX,
            old(self).sample_index < u64::MAX,
        ensures
            final(self).wf(),
            final(self).framer == old(self).framer,
            final(self).detect_spikes == old(self).detect_spikes,
            final(self).discard_lines == old(self).discard_lines,
            final(self).max_points == old(self).max_points,
            final(self).detector.max_points == old(self).detector.max_points,
            final(self).detector.z_threshold == old(self).detector.z_threshold,
            final(self).lines_seen == old(self).lines_seen + 1,
            final(self).sample_index as int == old(self).sample_index + (
            if old(self).lines_seen >= old(self).discard_lines && classify_spec(line@).len() > 0 {
                1int
            } else {
                0int
            }),
            old(self).lines_seen < old(self).discard_lines ==> {
                &&& final(self).registry@ == old(self).registry@
                &&& final(self).detector.buffers@ == old(self).detector.buffers@
                &&& final(self).detector.spikes@ == old(self).detector.spikes@
            },
            old(self).lines_seen >= old(self).discard_lines ==> {
                &&& reg_model(final(self).registry@) == route_all(
                    reg_model(old(self).registry@),
                    classify_spec(line@),
                    old(self).sample_index,
                    old(self).max_points as nat,
                )
                &&& (det_model(final(self).detector.buffers@), spikes_model(
                    final(self).detector.spikes@,
                )) == if old(self).detect_spikes {
                    det_all(
                        det_model(old(self).detector.buffers@),
                        spikes_model(old(self).detector.spikes@),
                        classify_spec(line@),
                        timestamp_ms,
                        old(self).detector.max_points as nat,
                        old(self).detector.z_threshold.milli as int,
                    )
                } else {
                    (det_model(old(self).detector.buffers@), spikes_model(
                        old(self).detector.spikes@,
                    ))
                }
            },
    {
        if self.lines_seen < self.discard_lines {
            self.lines_seen = self.lines_seen + 1;
            return ;
        }
        self.lines_seen = self.lines_seen + 1;
        let readings = classify_line(line);
        let ghost rs = classify_spec(line@);
        let ghost m0 = reg_model(self.registry@);
        let ghost dm0 = det_model(self.detector.buffers@);
        let ghost sp0 = spikes_model(self.detector.spikes@);
        let x = self.sample_index;
        let cap = self.max_points;
        let nr = readings.len();
        let mut k: usize = 0;
        proof {
            assert(rs.skip(0) =~= rs);
        }
        while k < nr
            invariant
                0 <= k <= nr,
                nr == readings@.len(),
                reading_views(readings@) == rs,
                forall|i: int| 0 <= i < readings@.len() ==> (#[trigger] readings@[i]).value.wf(),
                self.wf(),
                self.framer == old(self).framer,
                self.lines_seen == old(self).lines_seen + 1,
                self.discard_lines == old(self).discard_lines,
                self.sample_index == old(self).sample_index,
                self.sample_index < u64::MAX,
                x == old(self).sample_index,
                self.max_points == cap,
                cap == old(self).max_points,
                self.detect_spikes == old(self).detect_spikes,
                self.detector.max_points == old(self).detector.max_points,
                self.detector.z_threshold == old(self).detector.z_threshold,
                route_all(reg_model(self.registry@), rs.skip(k as int), x, cap as nat)
                    == route_all(m0, rs, x, cap as nat),
                old(self).detect_spikes ==> det_all(
                    det_model(self.detector.buffers@),
                    spikes_model(self.detector.spikes@),
                    rs.skip(k as int),
                    timestamp_ms,
                    old(self).detector.max_points as nat,
                    old(self).detector.z_threshold.milli as int,
                ) == det_all(
                    dm0,
                    sp0,
                    rs,
                    timestamp_ms,
                    old(self).detector.max_points as nat,
                    old(self).detector.z_threshold.milli as int,
                ),
                !old(self).detect_spikes ==> self.detector.buffers@ == old(
                    self,
                ).detector.buffers@ && self.detector.spikes@ == old(self).detector.spikes@,
            decreases nr - k,
        {
            proof {
                assert(rs.skip(k as int)[0] == rs[k as int]);
                assert(rs[k as int] == readings@[k as int]@);
                assert(rs.skip(k as int).drop_first() =~= rs.skip(k + 1));
            }
            let ghost regpre = self.registry@;
            let name_ref = &readings[k].name;
            let y = readings[k].value;
            proof {
                lemma_rm_index(regpre, name_ref@);
                lemma_chan_index(regpre, name_ref@);
            }
            self.registry.add_point(name_ref.as_slice(), x, y, cap);
            proof {
                let i0 = chan_index(regpre, name_ref@);
                assert(reg_model(self.registry@) =~= route_step(
                    reg_model(regpre),
                    name_ref@,
                    x,
                    y,
                    cap as nat,
                ));
            }
            if self.detect_spikes {
                let ghost detpre = self.detector.buffers@;
                let ghost spkpre = self.detector.spikes@;
                proof {
                    lemma_dm_index(detpre, name_ref@);
                    lemma_buf_index(detpre, name_ref@);
                }
                self.detector.add_point(name_ref.as_slice(), timestamp_ms, y);
                proof {
                    let i0 = buf_index(detpre, name_ref@);
                    let stepped = det_step(
                        det_model(detpre),
                        spikes_model(spkpre),
                        name_ref@,
                        timestamp_ms,
                        y,
                        old(self).detector.max_points as nat,
                        old(self).detector.z_threshold.milli as int,
                    );
                    assert(det_model(self.detector.buffers@) =~= stepped.0);
                    assert(spikes_model(self.detector.spikes@) =~= stepped.1);
                }
            }
            k = k + 1;
        }
        proof {
            assert(rs.skip(nr as int) =~= Seq::<(Seq<u8>, int)>::empty());
        }
        if readings.len() > 0 {
            self.sample_index = self.sample_index + 1;
        }
    }
}

/// The spec-level state of a whole session: lines seen, sample index,
/// registry, detector buffers and spike log.
pub open spec fn session_model(s: Session) -> (
    int,
    int,
    Seq<(Seq<u8>, usize, Seq<(u64, Fixed)>, Option<Fixed>, Option<Fixed>)>,
    Seq<(Seq<u8>, Seq<(u64, Fixed)>)>,
    Seq<(Seq<u8>, u64, Fixed, Fixed, Fixed)>,
) {
    (
        s.lines_seen as int,
        s.sample_index as int,
        reg_model(s.registry@),
        det_model(s.detector.buffers@),
        spikes_model(s.detector.spikes@),
    )
}

/// What one complete line does to the session model: within the leading
/// discard only the line count advances; past it the line is classified,
/// its readings are routed, and the sample index advances exactly when
/// the line yielded at least one reading.
pub open spec fn line_step_model(
    m: (
        int,
        int,
        Seq<(Seq<u8>, usize, Seq<(u64, Fixed)>, Option<Fixed>, Option<Fixed>)>,
        Seq<(Seq<u8>, Seq<(u64, Fixed)>)>,
        Seq<(Seq<u8>, u64, Fixed, Fixed, Fixed)>,
    ),
    line: Seq<u8>,
    ts: u64,
    discard: int,
    cap: nat,
    dcap: nat,
    t: int,
    detect: bool,
) -> (
    int,
    int,
    Seq<(Seq<u8>, usize, Seq<(u64, Fixed)>, Option<Fixed>, Option<Fixed>)>,
    Seq<(Seq<u8>, Seq<(u64, Fixed)>)>,
    Seq<(Seq<u8>, u64, Fixed, Fixed, Fixed)>,
) {
    if m.0 < discard {
        (m.0 + 1, m.1, m.2, m.3, m.4)
    } else {
        let rs = classify_spec(line);
        let reg2 = route_all(m.2, rs, m.1 as u64, cap);
        let dd = if detect {
            det_all(m.3, m.4, rs, ts, dcap, t)
        } else {
            (m.3, m.4)
        };
        (
            m.0 + 1,
            m.1 + if rs.len() > 0 {
                1int
            } else {
                0int
            },
            reg2,
            dd.0,
            dd.1,
        )
    }
}

/// What a whole batch of complete lines does to the session model, in
/// order.
pub open spec fn lines_fold(
    m: (
        int,
        int,
        Seq<(Seq<u8>, usize, Seq<(u64, Fixed)>, Option<Fixed>, Option<Fixed>)>,
        Seq<(Seq<u8>, Seq<(u64, Fixed)>)>,
        Seq<(Seq<u8>, u64, Fixed, Fixed, Fixed)>,
    ),
    lines: Seq<Seq<u8>>,
    ts: u64,
    discard: int,
    cap: nat,
    dcap: nat,
    t: int,
    detect: bool,
) -> (
    int,
    int,
    Seq<(Seq<u8>, usize, Seq<(u64, Fixed)>, Option<Fixed>, Option<Fixed>)>,
    Seq<(Seq<u8>, Seq<(u64, Fixed)>)>,
    Seq<(Seq<u8>, u64, Fixed, Fixed, Fixed)>,
)
    decreases lines.len(),
{
    if lines.len() == 0 {
        m
    } else {
        lines_fold(
            line_step_model(m, lines[0], ts, discard, cap, dcap, t, detect),
            lines.drop_first(),
            ts,
            discard,
            cap,
            dcap,
            t,
            detect,
        )
    }
}

/// Folding lines advances the line count by their number and the sample
/// index by at most their number.
pub proof fn lemma_lines_fold_counters(
    m: (
        int,
        int,
        Seq<(Seq<u8>, usize, Seq<(u64, Fixed)>, Option<Fixed>, Option<Fixed>)>,
        Seq<(Seq<u8>, Seq<(u64, Fixed)>)>,
        Seq<(Seq<u8>, u64, Fixed, Fixed, Fixed)>,
    ),
    lines: Seq<Seq<u8>>,
    ts: u64,
    discard: int,
    cap: nat,
    dcap: nat,
    t: int,
    detect: bool,
)
    ensures
        lines_fold(m, lines, ts, discard, cap, dcap, t, detect).0 == m.0 + lines.len(),
        m.1 <= lines_fold(m, lines, ts, discard, cap, dcap, t, detect).1 <= m.1 + lines.len(),
    decreases lines.len(),
{
    if lines.len() > 0 {
        lemma_lines_fold_counters(
            line_step_model(m, lines[0], ts, discard, cap, dcap, t, detect),
            lines.drop_first(),
            ts,
            discard,
            cap,
            dcap,
            t,
            detect,
        );
    }
}

impl Session {
    /// Feeds newly received bytes in: frames them into complete lines,
    /// runs every completed line through the discard gate, the classifier
    /// and the routing, and hands the raw lines back for logging or
    /// display.
    pub fn ingest_bytes(&mut self, bytes: &[u8], timestamp_ms: u64) -> (lines: Vec<Vec<u8>>)
        requires
            old(self).wf(),
            old(self).lines_seen as int + old(self).framer@.len() + bytes@.len() < u64::MAX,
            old(self).sample_index as int + old(self).framer@.len() + bytes@.len() < u64::MAX,
        ensures
            final(self).wf(),
            byte_views(lines@) == frame_lines(old(self).framer@ + bytes@),
            final(self).framer@ == frame_rest(old(self).framer@ + bytes@),
            final(self).detect_spikes == old(self).detect_spikes,
            final(self).discard_lines == old(self).discard_lines,
            final(self).max_points == old(self).max_points,
            final(self).detector.max_points == old(self).detector.max_points,
            final(self).detector.z_threshold == old(self).detector.z_threshold,
            session_model(*final(self)) == lines_fold(
                session_model(*old(self)),
                frame_lines(old(self).framer@ + bytes@),
                timestamp_ms,
                old(self).discard_lines as int,
                old(self).max_points as nat,
                old(self).detector.max_points as nat,
                old(self).detector.z_threshold.milli as int,
                old(self).detect_spikes,
            ),
    {
        let ghost m0 = session_model(*old(self));
        let ghost discard = self.discard_lines as int;
        let ghost cap = self.max_points as nat;
        let ghost dcap = self.detector.max_points as nat;
        let ghost t = self.detector.z_threshold.milli as int;
        let ghost detect = self.detect_spikes;
        let lines = self.framer.push_bytes(bytes);
        let ghost lviews = byte_views(lines@);
        let ghost framed = self.framer;
        proof {
            crate::text::lemma_split_count(old(self).framer@ + bytes@, 10);
            assert(lviews.len() <= old(self).framer@.len() + bytes@.len());
            lemma_lines_fold_counters(m0, lviews, timestamp_ms, discard, cap, dcap, t, detect);
            assert(lviews.skip(0) =~= lviews);
        }
        let n = lines.len();
        let mut i: usize = 0;
        while i < n
            invariant
                0 <= i <= n,
                n == lines@.len(),
                lviews == byte_views(lines@),
                self.wf(),
                self.framer == framed,
                self.detect_spikes == detect,
                self.discard_lines as int == discard,
                self.max_points as nat == cap,
                self.detector.max_points as nat == dcap,
                self.detector.z_threshold.milli as int == t,
                m0.0 + lviews.len() < u64::MAX,
                m0.1 + lviews.len() < u64::MAX,
                lines_fold(session_model(*self), lviews.skip(i as int), timestamp_ms, discard, cap, dcap, t, detect)
                    == lines_fold(m0, lviews, timestamp_ms, discard, cap, dcap, t, detect),
            decreases n - i,
        {
            proof {
                assert(lviews.skip(i as int)[0] == lviews[i as int]);
                assert(lviews[i as int] == lines@[i as int]@);
                assert(lviews.skip(i as int).drop_first() =~= lviews.skip(i + 1));
                lemma_lines_fold_counters(
                    session_model(*self),
                    lviews.skip(i as int),
                    timestamp_ms,
                    discard,
                    cap,
                    dcap,
                    t,
                    detect,
                );
                lemma_lines_fold_counters(m0, lviews, timestamp_ms, discard, cap, dcap, t, detect);
            }
            let ghost pre = session_model(*self);
            self.process_line(lines[i].as_slice(), timestamp_ms);
            proof {
                assert(session_model(*self) == line_step_model(
                    pre,
                    lviews[i as int],
                    timestamp_ms,
                    discard,
                    cap,
                    dcap,
                    t,
                    detect,
                ));
            }
            i = i + 1;
        }
        proof {
            assert(lviews.skip(n as int) =~= Seq::<Seq<u8>>::empty());
        }
        lines
    }
}

/// The bytes of "RX [".
pub open spec fn lit_rx() -> Seq<u8> {
    seq![82u8, 88, 32, 91]
}

/// The bytes of "TX [".
pub open spec fn lit_tx() -> Seq<u8> {
    seq![84u8, 88, 32, 91]
}

/// The bytes of "ERROR [".
pub open spec fn lit_error() -> Seq<u8> {
    seq![69u8, 82, 82, 79, 82, 32, 91]
}

/// The bytes of "]: ".
pub open spec fn lit_bracket() -> Seq<u8> {
    seq![93u8, 58, 32]
}

/// A received-line log entry: the prefix, the timestamp in seconds, and
/// the line.
pub open spec fn rx_log_bytes(ms: int, line: Seq<u8>) -> Seq<u8> {
    lit_rx() + ts_bytes(ms) + lit_bracket() + line
}

/// A sent-line log entry.
pub open spec fn tx_log_bytes(ms: int, line: Seq<u8>) -> Seq<u8> {
    lit_tx() + ts_bytes(ms) + lit_bracket() + line
}

/// An error log entry.
pub open spec fn error_log_bytes(ms: int, msg: Seq<u8>) -> Seq<u8> {
    lit_error() + ts_bytes(ms) + lit_bracket() + msg
}

/// Formats a received-line log entry.
pub fn format_rx_log(ms: u64, line: &[u8]) -> (r: String)
    ensures
        r@ == lossy_utf8(rx_log_bytes(ms as int, line@)),
{
    let mut out: Vec<u8> = vec![82, 88, 32, 91];
    proof {
        assert(out@ =~= lit_rx());
    }
    let ts = crate::numerals::fmt_timestamp_bytes(ms);
    push_all(&mut out, ts.as_slice());
    let br: Vec<u8> = vec![93, 58, 32];
    proof {
        assert(br@ =~= lit_bracket());
    }
    push_all(&mut out, br.as_slice());
    push_all(&mut out, line);
    proof {
        assert(out@ =~= rx_log_bytes(ms as int, line@));
    }
    bytes_to_text(&out)
}

/// Formats a sent-line log entry.
pub fn format_tx_log(ms: u64, line: &[u8]) -> (r: String)
    ensures
        r@ == lossy_utf8(tx_log_bytes(ms as int, line@)),
{
    let mut out: Vec<u8> = vec![84, 88, 32, 91];
    proof {
        assert(out@ =~= lit_tx());
    }
    let ts = crate::numerals::fmt_timestamp_bytes(ms);
    push_all(&mut out, ts.as_slice());
    let br: Vec<u8> = vec![93, 58, 32];
    proof {
        assert(br@ =~= lit_bracket());
    }
    push_all(&mut out, br.as_slice());
    push_all(&mut out, line);
    proof {
        assert(out@ =~= tx_log_bytes(ms as int, line@));
    }
    bytes_to_text(&out)
}

/// Formats an error log entry.
pub fn format_error_log(ms: u64, msg: &[u8]) -> (r: String)
    ensures
        r@ == lossy_utf8(error_log_bytes(ms as int, msg@)),
{
    let mut out: Vec<u8> = vec![69, 82, 82, 79, 82, 32, 91];
    proof {
        assert(out@ =~= lit_error());
    }
    let ts = crate::numerals::fmt_timestamp_bytes(ms);
    push_all(&mut out, ts.as_slice());
    let br: Vec<u8> = vec![93, 58, 32];
    proof {
        assert(br@ =~= lit_bracket());
    }
    push_all(&mut out, br.as_slice());
    push_all(&mut out, msg);
    proof {
        assert(out@ =~= error_log_bytes(ms as int, msg@));
    }
    bytes_to_text(&out)
}

/// The message to transmit for one console input line: the input with
/// trailing whitespace removed and one newline appended, or nothing when
/// nothing but whitespace was typed.
pub open spec fn tx_payload(input: Seq<u8>) -> Option<Seq<u8>> {
    let c = rtrim_by(input, |b: u8| is_ws(b));
    if c.len() == 0 {
        None
    } else {
        Some(c.push(10))
    }
}

/// Prepares one console input line for transmission.
pub fn prepare_tx(input: &[u8]) -> (r: Option<Vec<u8>>)
    ensures
        r is Some <==> tx_payload(input@) is Some,
        r matches Some(v) ==> tx_payload(input@) == Some(v@),
{
    let n: usize = input.len();
    let mut b: usize = n;
    while b > 0 && (input[b - 1] == 32 || input[b - 1] == 9 || input[b - 1] == 10 || input[b - 1]
        == 13)
        invariant
            0 <= b <= n,
            n == input@.len(),
            forall|i: int| b <= i < n ==> is_ws(input@[i]),
        decreases b,
    {
        b = b - 1;
    }
    proof {
        crate::text::lemma_rtrim_by_at(input@, |x: u8| is_ws(x), b as int);
        assert(input@.take(b as int).len() == b);
    }
    if b == 0 {
        None
    } else {
        let mut out = crate::text::copy_range(input, 0, b);
        out.push(10);
        proof {
            assert(out@ =~= input@.take(b as int).push(10u8));
        }
        Some(out)
    }
}

} // verus!
