use comchan::detector::SpikeDetector;
use comchan::fixed::Fixed;

fn v(units: i64) -> Fixed {
    Fixed::from_milli(units * 1000)
}

#[test]
fn no_spike_before_five_points() {
    let mut d = SpikeDetector::new(100);
    // four steady points and then a wild one: still only four in the
    // buffer when it arrives? no - the fifth point completes the window,
    // so feed only four points total
    d.add_point(b"A", 0, v(1));
    d.add_point(b"A", 1, v(1));
    d.add_point(b"A", 2, v(1));
    d.add_point(b"A", 3, v(1000));
    assert!(!d.has_spikes());
    assert!(d.spikes.is_empty());
}

#[test]
fn constant_sequence_never_spikes() {
    let mut d = SpikeDetector::new(100);
    for i in 0..20 {
        d.add_point(b"A", i, v(5));
    }
    assert!(!d.has_spikes());
    // even with the lowest threshold the deviation of a constant buffer
    // is zero
    let mut d0 = SpikeDetector::with_threshold(100, Fixed::from_milli(0));
    for i in 0..20 {
        d0.add_point(b"A", i, v(5));
    }
    assert!(!d0.has_spikes());
}

#[test]
fn ramp_to_outlier_at_default_threshold() {
    // with values 1, 2, 3, 4, 100 the statistics over the window that
    // includes the outlier are mean 22 and deviation sqrt(1522), about
    // 39.013, so the z-score of the outlier is about 1.9993: strictly
    // below the default threshold of 2, and no spike fires
    let mut d = SpikeDetector::new(100);
    d.add_point(b"A", 0, v(1));
    d.add_point(b"A", 1, v(2));
    d.add_point(b"A", 2, v(3));
    d.add_point(b"A", 3, v(4));
    d.add_point(b"A", 4, v(100));
    assert!(!d.has_spikes());
}

#[test]
fn ramp_to_outlier_just_under_threshold_fires() {
    // the same sequence against a threshold of 1.9 standard deviations
    let mut d = SpikeDetector::with_threshold(100, Fixed::from_milli(1900));
    d.add_point(b"A", 0, v(1));
    d.add_point(b"A", 1, v(2));
    d.add_point(b"A", 2, v(3));
    d.add_point(b"A", 3, v(4));
    d.add_point(b"A", 4, v(100));
    assert!(d.has_spikes());
    assert_eq!(d.spikes.len(), 1);
    let sp = &d.spikes[0];
    assert_eq!(sp.sensor_name, b"A".to_vec());
    assert_eq!(sp.timestamp, 4);
    assert_eq!(sp.value, v(100));
    // mean (1+2+3+4+100)/5 = 22 exactly
    assert_eq!(sp.mean, Fixed::from_milli(22000));
    // population deviation sqrt(1522) = 39.0128..., cut to 39.012
    assert_eq!(sp.std_dev, Fixed::from_milli(39012));
}

#[test]
fn compute_stats_on_a_small_buffer() {
    let buf: Vec<(u64, Fixed)> = vec![(0, v(1)), (1, v(2)), (2, v(3))];
    let (mean, sd) = SpikeDetector::compute_stats(&buf);
    assert_eq!(mean, Fixed::from_milli(2000));
    // variance 2/3, deviation 0.8164..., cut to 0.816
    assert_eq!(sd, Fixed::from_milli(816));
}

#[test]
fn detector_buffer_evicts_oldest() {
    let mut d = SpikeDetector::new(3);
    for i in 0..5 {
        d.add_point(b"A", i, v(i as i64));
    }
    assert_eq!(d.buffers.len(), 1);
    let pts: Vec<(u64, i64)> = d.buffers[0].1.iter().map(|p| (p.0, p.1.milli)).collect();
    assert_eq!(pts, vec![(2, 2000), (3, 3000), (4, 4000)]);
}

#[test]
fn channels_are_independent() {
    let mut d = SpikeDetector::with_threshold(100, Fixed::from_milli(1900));
    for i in 0..4 {
        d.add_point(b"A", i, v(1 + i as i64));
    }
    // channel B gets the outlier but holds too few points to judge it
    d.add_point(b"B", 4, v(100));
    assert!(!d.has_spikes());
    // the outlier lands on A, whose window is full
    d.add_point(b"A", 5, v(100));
    assert!(d.has_spikes());
    assert_eq!(d.spikes[0].sensor_name, b"A".to_vec());
}

#[test]
fn spike_summary_lists_the_record() {
    let mut d = SpikeDetector::with_threshold(100, Fixed::from_milli(1900));
    d.add_point(b"A", 1500, v(1));
    d.add_point(b"A", 2500, v(2));
    d.add_point(b"A", 3500, v(3));
    d.add_point(b"A", 4500, v(4));
    d.add_point(b"A", 5500, v(100));
    let listing = d.format_spikes_for_prompt();
    // z re-derived: (100000 - 22000) * 1000 / 39012 = 1999.38..., cut to
    // 1.999 and shown with two decimals rounded half away from zero
    assert_eq!(
        listing,
        "- Sensor 'A' spiked at t=5.500 with value 100.000 (mean=22.000, std_dev=39.012, z-score=2.00)\n"
    );
}

#[test]
fn data_summary_lists_recent_points() {
    let mut d = SpikeDetector::new(100);
    d.add_point(b"A", 1000, v(1));
    d.add_point(b"A", 2000, v(2));
    d.add_point(b"B", 3000, Fixed::from_milli(-1500));
    let s = d.get_data_summary();
    assert_eq!(
        s,
        "\n--- A (2 points) ---\n  t=1.000: 1.000\n  t=2.000: 2.000\n\
         \n--- B (1 points) ---\n  t=3.000: -1.500\n"
    );
}

#[test]
fn data_summary_caps_at_fifty_points() {
    let mut d = SpikeDetector::new(200);
    for i in 0..60 {
        d.add_point(b"A", i, v(0));
    }
    let s = d.get_data_summary();
    assert!(s.starts_with("\n--- A (60 points) ---\n"));
    assert_eq!(s.matches("t=").count(), 50);
    // the oldest shown point is the eleventh
    assert!(s.contains("t=0.010"));
    assert!(!s.contains("t=0.009"));
}
