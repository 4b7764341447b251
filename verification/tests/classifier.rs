use comchan::classify::classify_line;
use comchan::fixed::Fixed;

fn pairs(line: &str) -> Vec<(Vec<u8>, i64)> {
    classify_line(line.as_bytes())
        .into_iter()
        .map(|r| (r.name, r.value.milli))
        .collect()
}

fn named(line: &str) -> Vec<(String, i64)> {
    pairs(line)
        .into_iter()
        .map(|(n, v)| (String::from_utf8(n).unwrap(), v))
        .collect()
}

#[test]
fn colon_pair() {
    assert_eq!(named("T:25.3"), vec![("T".to_string(), 25300)]);
}

#[test]
fn equals_pair() {
    assert_eq!(named("T=25.3"), vec![("T".to_string(), 25300)]);
}

#[test]
fn colon_pair_with_spaces() {
    assert_eq!(named("Temp: 25.3"), vec![("Temp".to_string(), 25300)]);
}

#[test]
fn comma_list() {
    assert_eq!(
        named("1,2,3"),
        vec![
            ("Channel 0".to_string(), 1000),
            ("Channel 1".to_string(), 2000),
            ("Channel 2".to_string(), 3000),
        ]
    );
}

#[test]
fn comma_list_keeps_positions_of_bad_tokens() {
    assert_eq!(
        named("1,x,3"),
        vec![("Channel 0".to_string(), 1000), ("Channel 2".to_string(), 3000)]
    );
}

#[test]
fn whitespace_list() {
    assert_eq!(
        named("1 2 3"),
        vec![
            ("Channel 0".to_string(), 1000),
            ("Channel 1".to_string(), 2000),
            ("Channel 2".to_string(), 3000),
        ]
    );
}

#[test]
fn whitespace_list_needs_all_numeric() {
    // one bad token defeats the whitespace rule; the fallback scan then
    // finds the first numeric token and names it by keyword
    assert_eq!(named("1 x 3"), vec![("Sensor".to_string(), 1000)]);
}

#[test]
fn whole_line_value() {
    assert_eq!(named("25.3"), vec![("Value".to_string(), 25300)]);
}

#[test]
fn negative_whole_line_value() {
    assert_eq!(named("-12.5"), vec![("Value".to_string(), -12500)]);
}

#[test]
fn fallback_keyword_temperature() {
    assert_eq!(named("Temp reading 25.3 C"), vec![("Temperature".to_string(), 25300)]);
}

#[test]
fn fallback_keyword_humidity() {
    assert_eq!(named("HUMIDITY is 40%"), vec![("Humidity".to_string(), 40000)]);
}

#[test]
fn fallback_keyword_pressure() {
    assert_eq!(named("pressure now 1013"), vec![("Pressure".to_string(), 1013000)]);
}

#[test]
fn fallback_keyword_order() {
    // "temp" is scanned for before "gyro", so it names the line
    assert_eq!(named("gyro temp 5"), vec![("Temperature".to_string(), 5000)]);
}

#[test]
fn fallback_keywords_remaining() {
    assert_eq!(named("mag value 7"), vec![("Magnetometer".to_string(), 7000)]);
    assert_eq!(named("gyro value 7"), vec![("Gyroscope".to_string(), 7000)]);
    assert_eq!(named("accel value 7"), vec![("Accelerometer".to_string(), 7000)]);
}

#[test]
fn fallback_strips_punctuation() {
    assert_eq!(named("reading (42.5)"), vec![("Sensor".to_string(), 42500)]);
}

#[test]
fn no_readings_from_plain_text() {
    assert_eq!(named("hello world"), Vec::<(String, i64)>::new());
}

#[test]
fn empty_line_yields_nothing() {
    assert_eq!(named(""), Vec::<(String, i64)>::new());
    assert_eq!(named("   "), Vec::<(String, i64)>::new());
}

#[test]
fn surrounding_whitespace_is_trimmed() {
    assert_eq!(named("  T:1.5  \r"), vec![("T".to_string(), 1500)]);
}

#[test]
fn precedence_colon_over_comma() {
    // one colon splitting the line in two wins over the comma rule
    assert_eq!(named("a:1"), vec![("a".to_string(), 1000)]);
}

#[test]
fn fraction_digits_past_the_third_are_cut() {
    assert_eq!(named("1.2345"), vec![("Value".to_string(), 1234)]);
}

#[test]
fn out_of_range_magnitude_is_refused() {
    // beyond a million units the value cannot be represented
    assert_eq!(named("1000001"), Vec::<(String, i64)>::new());
    assert_eq!(named("1000000"), vec![("Value".to_string(), 1_000_000_000)]);
}

#[test]
fn colon_with_unparseable_right_yields_nothing() {
    // the pair rules fail, no comma, one whitespace token, no numeral
    // anywhere: nothing is emitted
    assert_eq!(named("T:x"), Vec::<(String, i64)>::new());
}

#[test]
fn colon_beats_comma_even_with_commas_in_the_name() {
    assert_eq!(named("1,2:3"), vec![("1,2".to_string(), 3000)]);
}

#[test]
fn classify_returns_reading_structs() {
    let rs = classify_line(b"T:2");
    assert_eq!(rs.len(), 1);
    assert_eq!(rs[0].name, b"T".to_vec());
    assert_eq!(rs[0].value, Fixed::from_milli(2000));
}
