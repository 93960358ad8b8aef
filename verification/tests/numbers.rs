use std::cmp::Ordering;

use jsonb::error::Error;
use jsonb::number::Number;
use jsonb::path::PathValue;

#[test]
fn numbers_are_decoded() {
    assert_eq!(Number::decode(&[0x00]), Ok(Number::UInt64(0)));
    assert_eq!(Number::decode(&[0x10]), Ok(Number::Float64(f64::NAN.to_bits())));
    assert_eq!(Number::decode(&[0x20]), Ok(Number::Float64(f64::INFINITY.to_bits())));
    assert_eq!(Number::decode(&[0x30]), Ok(Number::Float64(f64::NEG_INFINITY.to_bits())));
    assert_eq!(Number::decode(&[0x40, 0xFF]), Ok(Number::Int64(-1)));
    assert_eq!(Number::decode(&[0x40, 0x80]), Ok(Number::Int64(-128)));
    assert_eq!(Number::decode(&[0x40, 0x7F]), Ok(Number::Int64(127)));
    assert_eq!(Number::decode(&[0x40, 0xFE, 0xD4]), Ok(Number::Int64(-300)));
    assert_eq!(Number::decode(&[0x40, 0x80, 0, 0, 0]), Ok(Number::Int64(i32::MIN as i64)));
    assert_eq!(
        Number::decode(&[0x40, 0x80, 0, 0, 0, 0, 0, 0, 0]),
        Ok(Number::Int64(i64::MIN))
    );
    assert_eq!(
        Number::decode(&[0x40, 0x7F, 0xFF, 0xFF, 0xFF, 0xFF, 0xFF, 0xFF, 0xFF]),
        Ok(Number::Int64(i64::MAX))
    );
    assert_eq!(Number::decode(&[0x50, 0xFF]), Ok(Number::UInt64(255)));
    assert_eq!(Number::decode(&[0x50, 1, 2]), Ok(Number::UInt64(258)));
    assert_eq!(Number::decode(&[0x50, 1, 2, 3, 4]), Ok(Number::UInt64(0x0102_0304)));
    assert_eq!(
        Number::decode(&[0x50, 0xFF, 0xFF, 0xFF, 0xFF, 0xFF, 0xFF, 0xFF, 0xFF]),
        Ok(Number::UInt64(u64::MAX))
    );
    let mut bytes = vec![0x60];
    bytes.extend_from_slice(&12.5f64.to_be_bytes());
    assert_eq!(Number::decode(&bytes), Ok(Number::Float64(12.5f64.to_bits())));
}

#[test]
fn broken_numbers_are_refused() {
    assert_eq!(Number::decode(&[0x40]), Err(Error::InvalidJsonbNumber));
    assert_eq!(Number::decode(&[0x40, 1, 2, 3]), Err(Error::InvalidJsonbNumber));
    assert_eq!(Number::decode(&[0x50, 1, 2, 3, 4, 5]), Err(Error::InvalidJsonbNumber));
    assert_eq!(Number::decode(&[0x70]), Err(Error::InvalidJsonbNumber));
    assert_eq!(Number::decode(&[0x01, 0]), Err(Error::InvalidJsonbNumber));
}

/// The order of two floats in which what is not a number comes last.
fn float_order(left: f64, right: f64) -> Ordering {
    match (left.is_nan(), right.is_nan()) {
        (true, true) => Ordering::Equal,
        (true, false) => Ordering::Greater,
        (false, true) => Ordering::Less,
        (false, false) => left.partial_cmp(&right).unwrap(),
    }
}

fn floats() -> Vec<f64> {
    let mut all = vec![
        0.0,
        0.5,
        1.0,
        1.5,
        3.0,
        255.0,
        1e15,
        9007199254740991.0,
        9007199254740992.0,
        9007199254740994.0,
        9223372036854774784.0,
        9223372036854775808.0,
        18446744073709549568.0,
        18446744073709551616.0,
        1e300,
        f64::MIN_POSITIVE,
        5e-324,
        f64::MAX,
        f64::INFINITY,
    ];
    let negative: Vec<f64> = all.iter().map(|f| -f).collect();
    all.extend(negative);
    all.push(f64::NAN);
    all
}

fn integers() -> Vec<u64> {
    let mut all = vec![0, 1, 2, 3, 7, 255, 1_000_000_007];
    for bit in [31, 52, 53, 54, 55, 60, 62, 63] {
        let power = 1u64 << bit;
        for near in -4i64..=4 {
            all.push(power.wrapping_add(near as u64));
        }
        all.push(power + power / 2 + 1);
    }
    for near in 0..3000 {
        all.push(u64::MAX - near);
        all.push((1u64 << 62) - near);
    }
    all
}

#[test]
fn floats_are_ordered() {
    for l in floats() {
        for r in floats() {
            let left = Number::Float64(l.to_bits());
            let right = Number::Float64(r.to_bits());
            assert_eq!(left.order(&right), float_order(l, r));
        }
    }
}

#[test]
fn integers_are_ordered_against_floats() {
    for n in integers() {
        for near in [n as f64, (n.saturating_sub(1)) as f64, (n.saturating_add(1)) as f64] {
            let float = Number::Float64(near.to_bits());
            let expected = float_order(n as f64, near);
            assert_eq!(Number::UInt64(n).order(&float), expected);
            assert_eq!(float.order(&Number::UInt64(n)), expected.reverse());
            let signed = n as i64;
            let expected = float_order(signed as f64, -near);
            let float = Number::Float64((-near).to_bits());
            assert_eq!(Number::Int64(signed).order(&float), expected);
        }
        for f in floats() {
            let float = Number::Float64(f.to_bits());
            assert_eq!(Number::UInt64(n).order(&float), float_order(n as f64, f));
        }
    }
    let min = Number::Float64((i64::MIN as f64).to_bits());
    assert_eq!(Number::Int64(i64::MIN).order(&min), Ordering::Equal);
    assert_eq!(Number::Int64(i64::MIN + 1).order(&min), Ordering::Equal);
}

#[test]
fn integers_keep_their_order() {
    let as_float = |n: u64| Number::Float64((n as f64).to_bits());
    // A float cannot tell these apart.
    assert_eq!(
        Number::UInt64(9007199254740993).order(&as_float(9007199254740992)),
        Ordering::Equal
    );
    assert_eq!(
        Number::UInt64(9007199254740991).order(&as_float(9007199254740992)),
        Ordering::Less
    );
}

#[test]
fn integers_are_ordered_by_value() {
    assert_eq!(Number::Int64(-1).order(&Number::UInt64(u64::MAX)), Ordering::Less);
    assert_eq!(Number::UInt64(u64::MAX).order(&Number::Int64(-1)), Ordering::Greater);
    assert_eq!(Number::UInt64(5).order(&Number::Int64(5)), Ordering::Equal);
    assert_eq!(
        Number::UInt64(9007199254740993).order(&Number::Int64(9007199254740992)),
        Ordering::Greater
    );
    assert_eq!(Number::Int64(i64::MIN).order(&Number::Int64(i64::MAX)), Ordering::Less);
}

#[test]
fn comparisons_are_mirrored() {
    let values = || {
        vec![
            PathValue::Null,
            PathValue::Boolean(false),
            PathValue::Boolean(true),
            PathValue::Number(Number::Int64(-3)),
            PathValue::Number(Number::Float64(0.5f64.to_bits())),
            PathValue::String("".into()),
            PathValue::String("ab".into()),
            PathValue::String("abc".into()),
            PathValue::String("b".into()),
        ]
    };
    for left in values() {
        for right in values() {
            assert_eq!(left.order(&right), right.order(&left).map(Ordering::reverse));
        }
        assert_eq!(left.order(&left), Some(Ordering::Equal));
    }
    assert_eq!(values()[6].order(&values()[7]), Some(Ordering::Less));
    assert_eq!(values()[7].order(&values()[8]), Some(Ordering::Less));
    assert_eq!(values()[0].order(&values()[1]), None);
    assert_eq!(values()[3].order(&values()[6]), None);
}
