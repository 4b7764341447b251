use comchan::fixed::Fixed;
use comchan::framer::LineFramer;
use comchan::numerals::parse_fixed;
use comchan::session::{format_error_log, format_rx_log, format_tx_log, prepare_tx, Session};
use comchan::text::format_timestamp;

#[test]
fn framer_defers_partial_lines() {
    let mut f = LineFramer::new();
    let lines = f.push_bytes(b"abc\nde");
    assert_eq!(lines, vec![b"abc".to_vec()]);
    let lines = f.push_bytes(b"f\n\nrest");
    assert_eq!(lines, vec![b"def".to_vec(), b"".to_vec()]);
    let lines = f.push_bytes(b"\n");
    assert_eq!(lines, vec![b"rest".to_vec()]);
}

#[test]
fn shared_index_advances_once_per_line() {
    let mut s = Session::new(100, 0, false);
    s.ingest_bytes(b"1,2,3\n", 0);
    // three readings from one line advance the shared index by one
    assert_eq!(s.sample_index, 1);
    assert_eq!(s.registry.len(), 3);
    s.ingest_bytes(b"junk\n4,5,6\n", 0);
    // the junk line contributes nothing and does not advance
    assert_eq!(s.sample_index, 2);
}

#[test]
fn readings_of_one_line_share_one_x() {
    let mut s = Session::new(100, 0, false);
    s.ingest_bytes(b"1,2\n10,20\n", 0);
    for i in 0..2usize {
        let ch = s.registry.channel_at(i);
        let xs: Vec<u64> = ch.points.iter().map(|p| p.0).collect();
        assert_eq!(xs, vec![0, 1]);
    }
}

#[test]
fn leading_lines_are_discarded() {
    let mut s = Session::new(100, 3, false);
    let lines = s.ingest_bytes(b"boot junk\n1\n2\n3\n4\n", 0);
    // every complete line still comes back for logging
    assert_eq!(lines.len(), 5);
    // but the first three fed nothing to the classifier: only the last
    // two lines became readings
    assert_eq!(s.sample_index, 2);
    assert_eq!(s.lines_seen, 5);
    let ch = s.registry.channel_at(0);
    assert_eq!(ch.name, b"Value".to_vec());
    let vals: Vec<i64> = ch.points.iter().map(|p| p.1.milli).collect();
    assert_eq!(vals, vec![3000, 4000]);
}

#[test]
fn end_to_end_outlier_sequence() {
    // channel "A" fed 1, 2, 3, 4, 100 one point at a time; the window
    // including the outlier has mean 22 and deviation sqrt(1522), about
    // 39.013, so the outlier's z-score is about 1.9993 and the default
    // threshold of 2 is not crossed
    let mut s = Session::new(100, 0, true);
    for val in ["A:1", "A:2", "A:3", "A:4", "A:100"] {
        let mut bytes = val.as_bytes().to_vec();
        bytes.push(b'\n');
        s.ingest_bytes(&bytes, 0);
    }
    assert_eq!(s.sample_index, 5);
    assert_eq!(s.registry.len(), 1);
    let ch = s.registry.channel_at(0);
    let pts: Vec<(u64, i64)> = ch.points.iter().map(|p| (p.0, p.1.milli)).collect();
    assert_eq!(pts, vec![(0, 1000), (1, 2000), (2, 3000), (3, 4000), (4, 100000)]);
    assert!(!s.detector.has_spikes());
    // the detector saw the same five points
    assert_eq!(s.detector.buffers.len(), 1);
    assert_eq!(s.detector.buffers[0].1.len(), 5);
}

#[test]
fn detector_not_fed_when_detection_is_off() {
    let mut s = Session::new(100, 0, false);
    s.ingest_bytes(b"A:1\n", 0);
    assert_eq!(s.registry.len(), 1);
    assert!(s.detector.buffers.is_empty());
}

#[test]
fn log_line_formats() {
    assert_eq!(format_rx_log(12034, b"hello"), "RX [12.034]: hello");
    assert_eq!(format_tx_log(5, b"cmd"), "TX [0.005]: cmd");
    assert_eq!(format_error_log(1000, b"boom"), "ERROR [1.000]: boom");
}

#[test]
fn tx_preparation_trims_and_terminates() {
    assert_eq!(prepare_tx(b"cmd  \r\n"), Some(b"cmd\n".to_vec()));
    assert_eq!(prepare_tx(b"cmd"), Some(b"cmd\n".to_vec()));
    assert_eq!(prepare_tx(b"   \r\n"), None);
    assert_eq!(prepare_tx(b""), None);
}

#[test]
fn timestamps_format_as_seconds() {
    assert_eq!(format_timestamp(0), "0.000");
    assert_eq!(format_timestamp(12034), "12.034");
    assert_eq!(format_timestamp(999), "0.999");
}

#[test]
fn fixed_point_parsing_round_trip() {
    assert_eq!(parse_fixed(b"25.3"), Some(Fixed::from_milli(25300)));
    assert_eq!(parse_fixed(b"-0.5"), Some(Fixed::from_milli(-500)));
    assert_eq!(parse_fixed(b"+7"), Some(Fixed::from_milli(7000)));
    assert_eq!(parse_fixed(b".5"), Some(Fixed::from_milli(500)));
    assert_eq!(parse_fixed(b"5."), Some(Fixed::from_milli(5000)));
    assert_eq!(parse_fixed(b""), None);
    assert_eq!(parse_fixed(b"."), None);
    assert_eq!(parse_fixed(b"1e5"), None);
    assert_eq!(parse_fixed(b"1.2.3"), None);
    assert_eq!(parse_fixed(b" 5"), None);
}
