use vstd::prelude::*;

use crate::fixed::Fixed;
use crate::numerals::{dec_digits, fmt_u64, lemma_parse_milli_range, parse_fixed, spec_parse_milli};
use crate::text::{
    byte_views, contains_bytes, contains_sub, lower, lower_bytes, split_at_byte, split_bytes,
    split_ws, split_ws_bytes, strip_spec, strip_token, trim_bytes, trim_spec,
};

verus! {

/// One named numeric reading extracted from a line.
pub struct Reading {
    /// The channel name, as UTF-8 bytes taken or built from the line.
    pub name: Vec<u8>,
    /// The numeric value.
    pub value: Fixed,
}

impl View for Reading {
    type V = (Seq<u8>, int);

    open spec fn view(&self) -> (Seq<u8>, int) {
        (self.name@, self.value.milli as int)
    }
}

/// The (name, thousandths) pairs that a sequence of readings holds.
pub open spec fn reading_views(rs: Seq<Reading>) -> Seq<(Seq<u8>, int)> {
    Seq::new(rs.len(), |i: int| rs[i]@)
}

/// The bytes of "temp".
pub open spec fn kw_temp() -> Seq<u8> {
    seq![116, 101, 109, 112]
}

/// The bytes of "humid".
pub open spec fn kw_humid() -> Seq<u8> {
    seq![104, 117, 109, 105, 100]
}

/// The bytes of "pressure".
pub open spec fn kw_pressure() -> Seq<u8> {
    seq![112, 114, 101, 115, 115, 117, 114, 101]
}

/// The bytes of "mag".
pub open spec fn kw_mag() -> Seq<u8> {
    seq![109, 97, 103]
}

/// The bytes of "gyro".
pub open spec fn kw_gyro() -> Seq<u8> {
    seq![103, 121, 114, 111]
}

/// The bytes of "accel".
pub open spec fn kw_accel() -> Seq<u8> {
    seq![97, 99, 99, 101, 108]
}

/// The bytes of "Temperature".
pub open spec fn name_temperature() -> Seq<u8> {
    seq![84, 101, 109, 112, 101, 114, 97, 116, 117, 114, 101]
}

/// The bytes of "Humidity".
pub open spec fn name_humidity() -> Seq<u8> {
    seq![72, 117, 109, 105, 100, 105, 116, 121]
}

/// The bytes of "Pressure".
pub open spec fn name_pressure() -> Seq<u8> {
    seq![80, 114, 101, 115, 115, 117, 114, 101]
}

/// The bytes of "Magnetometer".
pub open spec fn name_magnetometer() -> Seq<u8> {
    seq![77, 97, 103, 110, 101, 116, 111, 109, 101, 116, 101, 114]
}

/// The bytes of "Gyroscope".
pub open spec fn name_gyroscope() -> Seq<u8> {
    seq![71, 121, 114, 111, 115, 99, 111, 112, 101]
}

/// The bytes of "Accelerometer".
pub open spec fn name_accelerometer() -> Seq<u8> {
    seq![65, 99, 99, 101, 108, 101, 114, 111, 109, 101, 116, 101, 114]
}

/// The bytes of "Sensor".
pub open spec fn name_sensor() -> Seq<u8> {
    seq![83, 101, 110, 115, 111, 114]
}

/// The bytes of "Value".
pub open spec fn name_value() -> Seq<u8> {
    seq![86, 97, 108, 117, 101]
}

/// The bytes of "Channel " with its trailing space.
pub open spec fn channel_prefix() -> Seq<u8> {
    seq![67, 104, 97, 110, 110, 101, 108, 32]
}

/// The generated name of the `k`-th positional channel.
pub open spec fn channel_name_spec(k: int) -> Seq<u8> {
    channel_prefix() + dec_digits(k as nat)
}

/// Builds the name of the `k`-th positional channel.
pub fn channel_name_bytes(k: u64) -> (r: Vec<u8>)
    ensures
        r@ == channel_name_spec(k as int),
{
    let mut out: Vec<u8> = Vec::new();
    out.push(67);
    out.push(104);
    out.push(97);
    out.push(110);
    out.push(110);
    out.push(101);
    out.push(108);
    out.push(32);
    let digits = fmt_u64(k);
    let mut i: usize = 0;
    while i < digits.len()
        invariant
            0 <= i <= digits@.len(),
            out@ == channel_prefix() + digits@.take(i as int),
        decreases digits@.len() - i,
    {
        out.push(digits[i]);
        i = i + 1;
        proof {
            assert(digits@.take(i as int) =~= digits@.take(i - 1).push(digits@[i - 1]));
            assert(out@ =~= channel_prefix() + digits@.take(i as int));
        }
    }
    proof {
        assert(digits@.take(digits@.len() as int) =~= digits@);
    }
    out
}

/// The name the fallback rule gives a reading: the first keyword that
/// occurs in the lower-cased line, else the generic sensor name.
pub open spec fn keyword_name(l: Seq<u8>) -> Seq<u8> {
    if contains_sub(l, kw_temp()) {
        name_temperature()
    } else if contains_sub(l, kw_humid()) {
        name_humidity()
    } else if contains_sub(l, kw_pressure()) {
        name_pressure()
    } else if contains_sub(l, kw_mag()) {
        name_magnetometer()
    } else if contains_sub(l, kw_gyro()) {
        name_gyroscope()
    } else if contains_sub(l, kw_accel()) {
        name_accelerometer()
    } else {
        name_sensor()
    }
}

/// Picks the fallback channel name for a line by a case-insensitive
/// keyword scan over the whole line.
pub fn keyword_name_bytes(t: &[u8]) -> (r: Vec<u8>)
    ensures
        r@ == keyword_name(lower(t@)),
{
    let low = lower_bytes(t);
    let kw1: Vec<u8> = vec![116, 101, 109, 112];
    if contains_bytes(low.as_slice(), kw1.as_slice()) {
        let r: Vec<u8> = vec![84, 101, 109, 112, 101, 114, 97, 116, 117, 114, 101];
        proof {
            assert(r@ =~= name_temperature());
            assert(kw1@ =~= kw_temp());
        }
        return r;
    }
    let kw2: Vec<u8> = vec![104, 117, 109, 105, 100];
    if contains_bytes(low.as_slice(), kw2.as_slice()) {
        let r: Vec<u8> = vec![72, 117, 109, 105, 100, 105, 116, 121];
        proof {
            assert(kw1@ =~= kw_temp());
            assert(kw2@ =~= kw_humid());
            assert(r@ =~= name_humidity());
        }
        return r;
    }
    let kw3: Vec<u8> = vec![112, 114, 101, 115, 115, 117, 114, 101];
    if contains_bytes(low.as_slice(), kw3.as_slice()) {
        let r: Vec<u8> = vec![80, 114, 101, 115, 115, 117, 114, 101];
        proof {
            assert(kw1@ =~= kw_temp());
            assert(kw2@ =~= kw_humid());
            assert(kw3@ =~= kw_pressure());
            assert(r@ =~= name_pressure());
        }
        return r;
    }
    let kw4: Vec<u8> = vec![109, 97, 103];
    if contains_bytes(low.as_slice(), kw4.as_slice()) {
        let r: Vec<u8> = vec![77, 97, 103, 110, 101, 116, 111, 109, 101, 116, 101, 114];
        proof {
            assert(kw1@ =~= kw_temp());
            assert(kw2@ =~= kw_humid());
            assert(kw3@ =~= kw_pressure());
            assert(kw4@ =~= kw_mag());
            assert(r@ =~= name_magnetometer());
        }
        return r;
    }
    let kw5: Vec<u8> = vec![103, 121, 114, 111];
    if contains_bytes(low.as_slice(), kw5.as_slice()) {
        let r: Vec<u8> = vec![71, 121, 114, 111, 115, 99, 111, 112, 101];
        proof {
            assert(kw1@ =~= kw_temp());
            assert(kw2@ =~= kw_humid());
            assert(kw3@ =~= kw_pressure());
            assert(kw4@ =~= kw_mag());
            assert(kw5@ =~= kw_gyro());
            assert(r@ =~= name_gyroscope());
        }
        return r;
    }
    let kw6: Vec<u8> = vec![97, 99, 99, 101, 108];
    if contains_bytes(low.as_slice(), kw6.as_slice()) {
        let r: Vec<u8> = vec![65, 99, 99, 101, 108, 101, 114, 111, 109, 101, 116, 101, 114];
        proof {
            assert(kw1@ =~= kw_temp());
            assert(kw2@ =~= kw_humid());
            assert(kw3@ =~= kw_pressure());
            assert(kw4@ =~= kw_mag());
            assert(kw5@ =~= kw_gyro());
            assert(kw6@ =~= kw_accel());
            assert(r@ =~= name_accelerometer());
        }
        return r;
    }
    let r: Vec<u8> = vec![83, 101, 110, 115, 111, 114];
    proof {
        assert(kw1@ =~= kw_temp());
        assert(kw2@ =~= kw_humid());
        assert(kw3@ =~= kw_pressure());
        assert(kw4@ =~= kw_mag());
        assert(kw5@ =~= kw_gyro());
        assert(kw6@ =~= kw_accel());
        assert(r@ =~= name_sensor());
    }
    r
}

/// The pair rule: when the line splits into exactly two parts on `sep`
/// and the right part (trimmed) parses, one reading named by the trimmed
/// left part.
pub open spec fn pair_rule(t: Seq<u8>, sep: u8) -> Seq<(Seq<u8>, int)> {
    let parts = split_at_byte(t, sep);
    if parts.len() == 2 {
        match spec_parse_milli(trim_spec(parts[1])) {
            Some(m) => seq![(trim_spec(parts[0]), m)],
            None => Seq::<(Seq<u8>, int)>::empty(),
        }
    } else {
        Seq::<(Seq<u8>, int)>::empty()
    }
}

/// Applies the pair rule for one separator byte.
pub fn rule_pair(t: &[u8], sep: u8) -> (r: Vec<Reading>)
    ensures
        reading_views(r@) == pair_rule(t@, sep),
        forall|i: int| 0 <= i < r@.len() ==> r@[i].value.wf(),
{
    let parts = split_bytes(t, sep);
    let mut out: Vec<Reading> = Vec::new();
    if parts.len() == 2 {
        let right = trim_bytes(parts[1].as_slice());
        match parse_fixed(right.as_slice()) {
            Some(v) => {
                let name = trim_bytes(parts[0].as_slice());
                out.push(Reading { name, value: v });
                proof {
                    assert(byte_views(parts@)[0] == parts@[0]@);
                    assert(byte_views(parts@)[1] == parts@[1]@);
                    lemma_parse_milli_range(trim_spec(parts@[1]@));
                    assert(spec_parse_milli(trim_spec(parts@[1]@)) == Some(v.milli as int));
                    assert(reading_views(out@) =~= pair_rule(t@, sep));
                }
            },
            None => {
                proof {
                    assert(byte_views(parts@)[1] == parts@[1]@);
                    assert(reading_views(out@) =~= pair_rule(t@, sep));
                }
            },
        }
    } else {
        proof {
            assert(reading_views(out@) =~= pair_rule(t@, sep));
        }
    }
    out
}

/// The readings the comma rule yields from the split parts, numbering
/// each part by its position whether or not it parses.
pub open spec fn comma_readings(parts: Seq<Seq<u8>>, k: int) -> Seq<(Seq<u8>, int)>
    decreases parts.len(),
{
    if parts.len() == 0 {
        Seq::<(Seq<u8>, int)>::empty()
    } else {
        let rest = comma_readings(parts.drop_first(), k + 1);
        match spec_parse_milli(trim_spec(parts[0])) {
            Some(m) => seq![(channel_name_spec(k), m)] + rest,
            None => rest,
        }
    }
}

/// The comma rule: when the line holds a comma, every comma-separated
/// part that parses (trimmed) becomes a positional channel reading.
pub open spec fn comma_rule(t: Seq<u8>) -> Seq<(Seq<u8>, int)> {
    let parts = split_at_byte(t, 44);
    if parts.len() >= 2 {
        comma_readings(parts, 0)
    } else {
        Seq::<(Seq<u8>, int)>::empty()
    }
}

/// Applies the comma rule.
pub fn rule_comma(t: &[u8]) -> (r: Vec<Reading>)
    ensures
        reading_views(r@) == comma_rule(t@),
        forall|i: int| 0 <= i < r@.len() ==> r@[i].value.wf(),
{
    let parts = split_bytes(t, 44);
    let ghost pviews = byte_views(parts@);
    let mut out: Vec<Reading> = Vec::new();
    if parts.len() < 2 {
        proof {
            assert(reading_views(out@) =~= comma_rule(t@));
        }
        return out;
    }
    let n = parts.len();
    let mut k: usize = 0;
    proof {
        assert(pviews.skip(0) =~= pviews);
    }
    while k < n
        invariant
            0 <= k <= n,
            n == parts@.len(),
            n >= 2,
            pviews == byte_views(parts@),
            comma_readings(pviews, 0) == reading_views(out@) + comma_readings(
                pviews.skip(k as int),
                k as int,
            ),
            forall|i: int| 0 <= i < out@.len() ==> out@[i].value.wf(),
        decreases n - k,
    {
        let tok = trim_bytes(parts[k].as_slice());
        proof {
            assert(pviews.skip(k as int)[0] == pviews[k as int]);
            assert(pviews[k as int] == parts@[k as int]@);
            assert(pviews.skip(k as int).drop_first() =~= pviews.skip(k + 1));
        }
        match parse_fixed(tok.as_slice()) {
            Some(v) => {
                let name = channel_name_bytes(k as u64);
                let ghost pre = out@;
                out.push(Reading { name, value: v });
                proof {
                    lemma_parse_milli_range(trim_spec(pviews[k as int]));
                    assert(spec_parse_milli(trim_spec(pviews[k as int])) == Some(v.milli as int));
                    assert(reading_views(out@) =~= reading_views(pre) + seq![
                        (channel_name_spec(k as int), v.milli as int),
                    ]);
                    assert((reading_views(pre) + seq![
                        (channel_name_spec(k as int), v.milli as int),
                    ]) + comma_readings(pviews.skip(k + 1), k + 1) =~= reading_views(pre) + (seq![
                        (channel_name_spec(k as int), v.milli as int),
                    ] + comma_readings(pviews.skip(k + 1), k + 1)));
                }
            },
            None => {},
        }
        k = k + 1;
    }
    proof {
        assert(pviews.skip(n as int) =~= Seq::<Seq<u8>>::empty());
        assert(reading_views(out@) + comma_readings(pviews.skip(n as int), n as int)
            =~= reading_views(out@));
        assert(reading_views(out@) =~= comma_rule(t@));
    }
    out
}

/// Whether every token parses as a numeral.
pub open spec fn all_parse(toks: Seq<Seq<u8>>) -> bool {
    forall|i: int| 0 <= i < toks.len() ==> spec_parse_milli(toks[i]) is Some
}

/// The readings the whitespace rule yields from its tokens, numbering
/// each token by its position.
pub open spec fn ws_readings(toks: Seq<Seq<u8>>, k: int) -> Seq<(Seq<u8>, int)>
    decreases toks.len(),
{
    if toks.len() == 0 {
        Seq::<(Seq<u8>, int)>::empty()
    } else {
        let rest = ws_readings(toks.drop_first(), k + 1);
        match spec_parse_milli(toks[0]) {
            Some(m) => seq![(channel_name_spec(k), m)] + rest,
            None => rest,
        }
    }
}

/// The whitespace rule: when the line splits on whitespace into two or
/// more tokens that all parse, every token becomes a positional channel
/// reading.
pub open spec fn ws_rule(t: Seq<u8>) -> Seq<(Seq<u8>, int)> {
    let toks = split_ws(t);
    if toks.len() >= 2 && all_parse(toks) {
        ws_readings(toks, 0)
    } else {
        Seq::<(Seq<u8>, int)>::empty()
    }
}

/// Applies the whitespace rule.
pub fn rule_ws(t: &[u8]) -> (r: Vec<Reading>)
    ensures
        reading_views(r@) == ws_rule(t@),
        forall|i: int| 0 <= i < r@.len() ==> r@[i].value.wf(),
{
    let toks = split_ws_bytes(t);
    let ghost tviews = byte_views(toks@);
    let empty: Vec<Reading> = Vec::new();
    if toks.len() < 2 {
        proof {
            assert(reading_views(empty@) =~= ws_rule(t@));
        }
        return empty;
    }
    let n = toks.len();
    let mut out: Vec<Reading> = Vec::new();
    let mut k: usize = 0;
    proof {
        assert(tviews.skip(0) =~= tviews);
    }
    while k < n
        invariant
            0 <= k <= n,
            n == toks@.len(),
            n >= 2,
            tviews == byte_views(toks@),
            tviews == split_ws(t@),
            empty@.len() == 0,
            forall|i: int| 0 <= i < k ==> spec_parse_milli(tviews[i]) is Some,
            ws_readings(tviews, 0) == reading_views(out@) + ws_readings(
                tviews.skip(k as int),
                k as int,
            ),
            forall|i: int| 0 <= i < out@.len() ==> out@[i].value.wf(),
        decreases n - k,
    {
        proof {
            assert(tviews.skip(k as int)[0] == tviews[k as int]);
            assert(tviews[k as int] == toks@[k as int]@);
            assert(tviews.skip(k as int).drop_first() =~= tviews.skip(k + 1));
        }
        match parse_fixed(toks[k].as_slice()) {
            Some(v) => {
                let name = channel_name_bytes(k as u64);
                let ghost pre = out@;
                out.push(Reading { name, value: v });
                proof {
                    lemma_parse_milli_range(tviews[k as int]);
                    assert(spec_parse_milli(tviews[k as int]) == Some(v.milli as int));
                    assert(reading_views(out@) =~= reading_views(pre) + seq![
                        (channel_name_spec(k as int), v.milli as int),
                    ]);
                    assert((reading_views(pre) + seq![
                        (channel_name_spec(k as int), v.milli as int),
                    ]) + ws_readings(tviews.skip(k + 1), k + 1) =~= reading_views(pre) + (seq![
                        (channel_name_spec(k as int), v.milli as int),
                    ] + ws_readings(tviews.skip(k + 1), k + 1)));
                }
            },
            None => {
                proof {
                    assert(spec_parse_milli(tviews[k as int]) is None);
                    assert(!all_parse(tviews));
                    assert(reading_views(empty@) =~= ws_rule(t@));
                }
                return empty;
            },
        }
        k = k + 1;
    }
    proof {
        assert(all_parse(tviews));
        assert(tviews.skip(n as int) =~= Seq::<Seq<u8>>::empty());
        assert(reading_views(out@) + ws_readings(tviews.skip(n as int), n as int)
            =~= reading_views(out@));
        assert(reading_views(out@) =~= ws_rule(t@));
    }
    out
}

/// The whole-line rule: the trimmed line itself parses as one numeral.
pub open spec fn value_rule(t: Seq<u8>) -> Seq<(Seq<u8>, int)> {
    match spec_parse_milli(t) {
        Some(m) => seq![(name_value(), m)],
        None => Seq::<(Seq<u8>, int)>::empty(),
    }
}

/// Applies the whole-line rule.
pub fn rule_value(t: &[u8]) -> (r: Vec<Reading>)
    ensures
        reading_views(r@) == value_rule(t@),
        forall|i: int| 0 <= i < r@.len() ==> r@[i].value.wf(),
{
    let mut out: Vec<Reading> = Vec::new();
    match parse_fixed(t) {
        Some(v) => {
            let name: Vec<u8> = vec![86, 97, 108, 117, 101];
            proof {
                assert(name@ =~= name_value());
            }
            out.push(Reading { name, value: v });
            proof {
                lemma_parse_milli_range(t@);
                assert(spec_parse_milli(t@) == Some(v.milli as int));
                assert(reading_views(out@) =~= value_rule(t@));
            }
        },
        None => {
            proof {
                assert(reading_views(out@) =~= value_rule(t@));
            }
        },
    }
    out
}

/// The value of the first token whose stripped form parses, if any.
pub open spec fn first_stripped(toks: Seq<Seq<u8>>) -> Option<int>
    decreases toks.len(),
{
    if toks.len() == 0 {
        None
    } else {
        match spec_parse_milli(strip_spec(toks[0])) {
            Some(m) => Some(m),
            None => first_stripped(toks.drop_first()),
        }
    }
}

/// The fallback rule: the first whitespace token whose stripped form
/// parses gives the value, and a keyword scan over the lower-cased line
/// gives the name.
pub open spec fn fallback_rule(t: Seq<u8>) -> Seq<(Seq<u8>, int)> {
    match first_stripped(split_ws(t)) {
        Some(m) => seq![(keyword_name(lower(t)), m)],
        None => Seq::<(Seq<u8>, int)>::empty(),
    }
}

/// Applies the fallback rule.
pub fn rule_fallback(t: &[u8]) -> (r: Vec<Reading>)
    ensures
        reading_views(r@) == fallback_rule(t@),
        forall|i: int| 0 <= i < r@.len() ==> r@[i].value.wf(),
{
    let toks = split_ws_bytes(t);
    let ghost tviews = byte_views(toks@);
    let mut out: Vec<Reading> = Vec::new();
    let n = toks.len();
    let mut k: usize = 0;
    proof {
        assert(tviews.skip(0) =~= tviews);
    }
    while k < n
        invariant
            0 <= k <= n,
            n == toks@.len(),
            tviews == byte_views(toks@),
            tviews == split_ws(t@),
            first_stripped(tviews) == first_stripped(tviews.skip(k as int)),
            out@.len() == 0,
        decreases n - k,
    {
        proof {
            assert(tviews.skip(k as int)[0] == tviews[k as int]);
            assert(tviews[k as int] == toks@[k as int]@);
            assert(tviews.skip(k as int).drop_first() =~= tviews.skip(k + 1));
        }
        let stripped = strip_token(toks[k].as_slice());
        match parse_fixed(stripped.as_slice()) {
            Some(v) => {
                let name = keyword_name_bytes(t);
                out.push(Reading { name, value: v });
                proof {
                    lemma_parse_milli_range(strip_spec(tviews[k as int]));
                    assert(spec_parse_milli(strip_spec(tviews[k as int])) == Some(
                        v.milli as int,
                    ));
                    assert(first_stripped(tviews.skip(k as int)) == Some(v.milli as int));
                    assert(first_stripped(tviews) == Some(v.milli as int));
                    assert(reading_views(out@) =~= fallback_rule(t@));
                }
                return out;
            },
            None => {},
        }
        k = k + 1;
    }
    proof {
        assert(tviews.skip(n as int) =~= Seq::<Seq<u8>>::empty());
        assert(first_stripped(tviews) is None);
        assert(reading_views(out@) =~= fallback_rule(t@));
    }
    out
}

/// The readings one trimmed line yields: the rules are tried in strict
/// precedence and the first that yields anything wins.
pub open spec fn classify_spec(line: Seq<u8>) -> Seq<(Seq<u8>, int)> {
    let t = trim_spec(line);
    if pair_rule(t, 58).len() > 0 {
        pair_rule(t, 58)
    } else if pair_rule(t, 61).len() > 0 {
        pair_rule(t, 61)
    } else if comma_rule(t).len() > 0 {
        comma_rule(t)
    } else if ws_rule(t).len() > 0 {
        ws_rule(t)
    } else if value_rule(t).len() > 0 {
        value_rule(t)
    } else {
        fallback_rule(t)
    }
}

/// Classifies one raw line into zero or more named readings.
///
/// The rules are tried in strict precedence over the trimmed line: a
/// colon pair, an equals pair, a comma list, a whitespace list of two or
/// more numerals, the whole line as one numeral, and last a scan for the
/// first numeric-looking token named by a keyword search.
pub fn classify_line(line: &[u8]) -> (r: Vec<Reading>)
    ensures
        reading_views(r@) == classify_spec(line@),
        forall|i: int| 0 <= i < r@.len() ==> r@[i].value.wf(),
{
    let t = trim_bytes(line);
    let r1 = rule_pair(t.as_slice(), 58);
    if r1.len() > 0 {
        return r1;
    }
    let r2 = rule_pair(t.as_slice(), 61);
    if r2.len() > 0 {
        return r2;
    }
    let r3 = rule_comma(t.as_slice());
    if r3.len() > 0 {
        return r3;
    }
    let r4 = rule_ws(t.as_slice());
    if r4.len() > 0 {
        return r4;
    }
    let r5 = rule_value(t.as_slice());
    if r5.len() > 0 {
        return r5;
    }
    rule_fallback(t.as_slice())
}

} // verus!
