use crustydb::datatypes::Field;
use crustydb::double::round_to_double;
use crustydb::error::CrustyError;
use crustydb::field::FieldValue;
use crustydb::order::{compare_keys, Order, TotalOrder};

fn text(s: &str) -> Field {
    Field::String(s.to_string())
}

#[test]
fn integers_add() {
    assert_eq!(Field::Int(2).add_field(&Field::Int(3)), Ok(Field::Int(5)));
    assert_eq!(
        Field::Int(i64::MAX).add_field(&Field::Int(1)),
        Err(CrustyError::Overflow)
    );
}

#[test]
fn decimals_add() {
    assert_eq!(
        Field::Decimal(15_000).add_field(&Field::Decimal(-5_000)),
        Ok(Field::Decimal(10_000))
    );
    assert_eq!(
        Field::Decimal(i128::MIN).add_field(&Field::Decimal(-1)),
        Err(CrustyError::Overflow)
    );
}

#[test]
fn other_fields_do_not_add() {
    assert_eq!(
        text("a").add_field(&text("b")),
        Err(CrustyError::TypeMismatch)
    );
    assert_eq!(
        Field::Int(1).add_field(&Field::Decimal(1)),
        Err(CrustyError::TypeMismatch)
    );
}

#[test]
fn decimals_divide_by_integers() {
    assert_eq!(
        Field::Decimal(170_000).div_field(&Field::Int(4)),
        Ok(Field::Decimal(42_500))
    );
    assert_eq!(
        Field::Decimal(-5).div_field(&Field::Int(2)),
        Ok(Field::Decimal(-2))
    );
    assert_eq!(
        Field::Decimal(5).div_field(&Field::Int(-2)),
        Ok(Field::Decimal(-2))
    );
    assert_eq!(
        Field::Decimal(-5).div_field(&Field::Int(-2)),
        Ok(Field::Decimal(2))
    );
    assert_eq!(
        Field::Decimal(1).div_field(&Field::Int(0)),
        Err(CrustyError::DivisionByZero)
    );
    assert_eq!(
        Field::Decimal(i128::MIN).div_field(&Field::Int(-1)),
        Err(CrustyError::Overflow)
    );
    assert_eq!(
        Field::Int(4).div_field(&Field::Int(2)),
        Err(CrustyError::TypeMismatch)
    );
}

#[test]
fn integers_widen_to_decimals() {
    assert_eq!(Field::decimal_from_int(3), Field::Decimal(30_000));
    assert_eq!(
        Field::decimal_from_int(i64::MIN),
        Field::Decimal(i64::MIN as i128 * 10_000)
    );
    assert_eq!(Field::from_int(3).to_int(), Some(3));
    assert_eq!(Field::Decimal(3).to_int(), None);
}

#[test]
fn decimals_of_integers_go_through_doubles() {
    let limit: i64 = 9_007_199_254_740_992;
    assert_eq!(Field::decimal_from_int(limit), Field::Decimal(limit as i128 * 10_000));
    assert_eq!(
        Field::decimal_from_int(limit + 1),
        Field::Decimal(limit as i128 * 10_000)
    );
    assert_eq!(
        Field::decimal_from_int(-limit - 3),
        Field::Decimal((-limit - 4) as i128 * 10_000)
    );
    assert_eq!(
        Field::decimal_from_int(i64::MAX),
        Field::Decimal(9_223_372_036_854_775_808 * 10_000)
    );
}

#[test]
fn integers_round_as_conversions_to_doubles_do() {
    let mut samples: Vec<i64> = vec![i64::MIN, i64::MIN + 1, i64::MAX, i64::MAX - 1];
    for bit in 0..63 {
        for delta in -3000..3000 {
            samples.push((1i64 << bit).saturating_add(delta));
        }
    }
    let mut mixed: u64 = 1;
    for _ in 0..10_000 {
        mixed = mixed
            .wrapping_mul(6_364_136_223_846_793_005)
            .wrapping_add(1_442_695_040_888_963_407);
        samples.push(mixed as i64);
    }
    for n in samples {
        assert_eq!(round_to_double(n), (n as f64) as i128);
        let opposite = n.wrapping_neg();
        assert_eq!(round_to_double(opposite), (opposite as f64) as i128);
    }
}

#[test]
fn fields_are_ordered() {
    assert_eq!(Field::Int(1).compare(&Field::Int(2)), Order::Less);
    assert_eq!(Field::Int(2).compare(&Field::Int(2)), Order::Equal);
    assert_eq!(Field::Int(9).compare(&Field::Decimal(-9)), Order::Less);
    assert_eq!(text("").compare(&Field::Decimal(0)), Order::Greater);
    assert_eq!(text("ab").compare(&text("b")), Order::Less);
    assert_eq!(text("ab").compare(&text("a")), Order::Greater);
    assert_eq!(text("a").compare(&text("a")), Order::Equal);
}

#[test]
fn keys_are_ordered_lexicographically() {
    let key = |a: i64, b: i64| vec![Field::Int(a), Field::Int(b)];
    assert_eq!(compare_keys(&key(1, 9), &key(2, 0)), Order::Less);
    assert_eq!(compare_keys(&key(1, 9), &key(1, 8)), Order::Greater);
    assert_eq!(compare_keys(&key(1, 9), &key(1, 9)), Order::Equal);
    assert_eq!(compare_keys(&key(1, 9)[..1], &key(1, 9)), Order::Less);
    assert_eq!(compare_keys::<Field>(&[], &[]), Order::Equal);
}
