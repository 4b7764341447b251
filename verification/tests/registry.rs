use comchan::fixed::Fixed;
use comchan::registry::ChannelRegistry;

fn fx(milli: i64) -> Fixed {
    Fixed::from_milli(milli)
}

#[test]
fn points_roll_over_capacity() {
    let mut reg = ChannelRegistry::new();
    for i in 0..5u64 {
        reg.add_point(b"A", i, fx(i as i64 * 1000), 3);
    }
    assert_eq!(reg.len(), 1);
    let ch = reg.channel_at(0);
    let pts: Vec<(u64, i64)> = ch.points.iter().map(|p| (p.0, p.1.milli)).collect();
    // exactly the most recent three insertions, in insertion order
    assert_eq!(pts, vec![(2, 2000), (3, 3000), (4, 4000)]);
}

#[test]
fn bounds_survive_eviction() {
    let mut reg = ChannelRegistry::new();
    reg.add_point(b"A", 0, fx(-5000), 2);
    reg.add_point(b"A", 1, fx(9000), 2);
    reg.add_point(b"A", 2, fx(0), 2);
    reg.add_point(b"A", 3, fx(1000), 2);
    let ch = reg.channel_at(0);
    // the extreme points are long evicted but the bounds keep them
    assert_eq!(ch.points.len(), 2);
    assert_eq!(ch.min_y, Some(fx(-5000)));
    assert_eq!(ch.max_y, Some(fx(9000)));
}

#[test]
fn channels_keep_discovery_order_and_colors() {
    let mut reg = ChannelRegistry::new();
    for i in 0..10u64 {
        let name = format!("ch{}", i);
        reg.add_point(name.as_bytes(), i, fx(0), 10);
    }
    assert_eq!(reg.len(), 10);
    for i in 0..10usize {
        let ch = reg.channel_at(i);
        assert_eq!(ch.name, format!("ch{}", i).into_bytes());
        // the palette wraps after eight channels
        assert_eq!(ch.color_id, i % 8);
    }
}

#[test]
fn ensure_channel_is_idempotent() {
    let mut reg = ChannelRegistry::new();
    let a = reg.ensure_channel(b"A");
    let b = reg.ensure_channel(b"B");
    let a2 = reg.ensure_channel(b"A");
    assert_eq!((a, b, a2), (0, 1, 0));
    assert_eq!(reg.len(), 2);
    assert!(reg.channel_at(0).points.is_empty());
    assert_eq!(reg.channel_at(0).min_y, None);
}

#[test]
fn axis_bounds_with_no_data() {
    let reg = ChannelRegistry::new();
    let b = reg.axis_bounds();
    assert_eq!((b.x_min, b.x_max), (0, 10));
    assert_eq!((b.y_min.milli, b.y_max.milli), (-1000, 1000));
}

#[test]
fn axis_bounds_single_value_pads_one_unit() {
    let mut reg = ChannelRegistry::new();
    reg.add_point(b"A", 7, fx(4000), 100);
    let b = reg.axis_bounds();
    assert_eq!((b.x_min, b.x_max), (7, 7));
    assert_eq!((b.y_min.milli, b.y_max.milli), (3000, 5000));
}

#[test]
fn axis_bounds_pad_a_tenth_of_the_range() {
    let mut reg = ChannelRegistry::new();
    reg.add_point(b"A", 0, fx(0), 100);
    reg.add_point(b"A", 1, fx(10000), 100);
    let b = reg.axis_bounds();
    assert_eq!((b.x_min, b.x_max), (0, 1));
    // range 10 units, a tenth of it on each side
    assert_eq!((b.y_min.milli, b.y_max.milli), (-1000, 11000));
}

#[test]
fn axis_bounds_span_all_channels() {
    let mut reg = ChannelRegistry::new();
    reg.add_point(b"A", 3, fx(0), 100);
    reg.add_point(b"A", 4, fx(1000), 100);
    reg.add_point(b"B", 5, fx(-9000), 100);
    let b = reg.axis_bounds();
    assert_eq!((b.x_min, b.x_max), (3, 5));
    // global range -9..1, padded by one unit on each side
    assert_eq!((b.y_min.milli, b.y_max.milli), (-10000, 2000));
}

#[test]
fn axis_labels_format() {
    let mut reg = ChannelRegistry::new();
    reg.add_point(b"A", 0, fx(0), 100);
    reg.add_point(b"A", 20, fx(10000), 100);
    let b = reg.axis_bounds();
    let (xl, xm, xh) = b.x_labels();
    assert_eq!((xl.as_str(), xm.as_str(), xh.as_str()), ("0", "10", "20"));
    let (yl, ym, yh) = b.y_labels();
    assert_eq!((yl.as_str(), ym.as_str(), yh.as_str()), ("-1.00", "5.00", "11.00"));
}
