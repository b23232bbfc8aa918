use linera_views_core::wit_types::{WitAmount, WitResources};
use linera_views_core::data_types::{
    Alignment, Amount, ArithmeticError, BlockHeight, FormatSpec, ParseAmountError, Resources, Round, Timestamp,
};

#[test]
fn display_amount() {
    assert_eq!("1.", Amount::one().to_string());
    assert_eq!("1.", Amount::from_str("1.").unwrap().to_string());
    assert_eq!(
        Amount(10_000_000_000_000_000_000),
        Amount::from_str("10").unwrap()
    );
    assert_eq!("10.", Amount(10_000_000_000_000_000_000).to_string(),);
    assert_eq!(
        "1001.3",
        (Amount::from_str("1.1")
            .unwrap()
            .saturating_add(Amount::from_str("1_000.2").unwrap()))
        .to_string()
    );
    let wide = FormatSpec { width: Some(25), precision: Some(20), fill: ' ', align: None, sign_plus: false };
    assert_eq!("   1.00000000000000000000", Amount::one().format(&wide));
    let centered = FormatSpec {
        width: Some(9),
        precision: Some(1),
        fill: '~',
        align: Some(Alignment::Center),
        sign_plus: true,
    };
    assert_eq!("~+12.34~~", Amount::from_str("12.34").unwrap().format(&centered));
}

#[test]
fn amount_text_edges() {
    assert_eq!("0.", Amount::zero().to_string());
    assert_eq!("0.000000000000000001", Amount::from_attos(1).to_string());
    assert_eq!("340282366920938463463.374607431768211455", Amount::max_value().to_string());
    let left = FormatSpec { width: Some(6), precision: None, fill: '*', align: Some(Alignment::Left), sign_plus: false };
    assert_eq!("2.5***", Amount::from_str("2.5").unwrap().format(&left));
    let plus_zero = FormatSpec { width: None, precision: None, fill: ' ', align: None, sign_plus: true };
    assert_eq!("0.", Amount::zero().format(&plus_zero));
}

#[test]
fn parse_amount_errors() {
    assert_eq!(Err(ParseAmountError::Parse), Amount::from_str("1.2.3"));
    assert_eq!(Err(ParseAmountError::Parse), Amount::from_str("12a"));
    assert_eq!(Err(ParseAmountError::TooManyDigits), Amount::from_str("0.1234567890123456789"));
    assert_eq!(Err(ParseAmountError::TooHigh), Amount::from_str("340282366920938463464"));
    assert_eq!(Amount::from_str("+ 1"), Err(ParseAmountError::Parse));
    assert_eq!(Amount::from_str("  +3  ").unwrap(), Amount::from_tokens(3));
    assert_eq!(Amount::parse_trimmed("0.5").unwrap(), Amount::from_millis(500));
}

#[test]
fn amount_constructors() {
    assert_eq!(Amount::from_tokens(2), Amount(2_000_000_000_000_000_000));
    assert_eq!(Amount::from_millis(3), Amount(3_000_000_000_000_000));
    assert_eq!(Amount::from_micros(4), Amount(4_000_000_000_000));
    assert_eq!(Amount::from_nanos(5), Amount(5_000_000_000));
    assert_eq!(Amount::from_tokens(u128::MAX), Amount::max_value());
    let a = Amount((7u128 << 64) + 9);
    assert_eq!(a.upper_half(), 7);
    assert_eq!(a.lower_half(), 9);
    assert_eq!(Amount(10).saturating_div(Amount(3)), 3);
    assert_eq!(Amount(10).saturating_div(Amount(0)), u128::MAX);
    assert_eq!(Amount::sum(&vec![Amount(1), Amount(2), Amount::max_value()]), Amount::max_value());
    assert_eq!(u128::from(Amount(42)), 42);
}

#[test]
fn wrapped_arithmetic() {
    assert_eq!(Amount(1).try_add(Amount(2)), Ok(Amount(3)));
    assert_eq!(Amount::max_value().try_add_one(), Err(ArithmeticError::Overflow));
    assert_eq!(Amount(1).try_sub(Amount(2)), Err(ArithmeticError::Underflow));
    assert_eq!(Amount(0).try_sub_one(), Err(ArithmeticError::Underflow));
    assert_eq!(Amount(5).saturating_sub(Amount(9)), Amount(0));
    assert_eq!(Amount(u128::MAX / 2).try_mul(3), Err(ArithmeticError::Overflow));
    assert_eq!(Amount(4).saturating_mul(5), Amount(20));
    let mut h = BlockHeight(u64::MAX - 1);
    assert_eq!(h.try_add_assign_one(), Ok(()));
    assert_eq!(h.try_add_assign_one(), Err(ArithmeticError::Overflow));
    assert_eq!(h, BlockHeight::max_value());
    let mut b = BlockHeight(10);
    assert_eq!(b.try_sub_assign(BlockHeight(11)), Err(ArithmeticError::Underflow));
    assert_eq!(b, BlockHeight(10));
    b.saturating_add_assign(BlockHeight(u64::MAX));
    assert_eq!(b, BlockHeight::max_value());
    let mut m = Amount(6);
    assert_eq!(m.try_mul_assign(7), Ok(()));
    assert_eq!(m, Amount(42));
    assert_eq!(BlockHeight::from(7u64).try_into_usize(), Ok(7usize));
    assert_eq!(u64::from(BlockHeight(8)), 8);
    assert_eq!(ArithmeticError::Overflow.message(), "Number overflow");
    assert_eq!(ParseAmountError::TooHigh.message(), "cannot represent amount: number too high");
}

#[test]
fn rounds() {
    assert!(Round::MultiLeader(3).is_multi_leader());
    assert!(!Round::Fast.is_multi_leader());
    assert!(Round::Fast.is_fast());
    assert_eq!(Round::Fast.number(), 0);
    assert_eq!(Round::SingleLeader(4).number(), 4);
    assert_eq!(Round::Fast.category_name(), "fast");
    assert_eq!(Round::MultiLeader(1).category_name(), "multi");
    assert_eq!(Round::SingleLeader(1).category_name(), "single");
    assert_eq!(Round::Fast.to_string(), "fast round");
    assert_eq!(Round::MultiLeader(12).to_string(), "multi-leader round 12");
    assert_eq!(Round::SingleLeader(0).to_string(), "single-leader round 0");
    assert_eq!(Round::default(), Round::Fast);
}

#[test]
fn timestamps() {
    let t = Timestamp::from(1_000_000u64);
    assert_eq!(t.micros(), 1_000_000);
    assert_eq!(t.saturating_diff_micros(Timestamp(400_000)), 600_000);
    assert_eq!(Timestamp(5).saturating_diff_micros(Timestamp(9)), 0);
    assert_eq!(t.duration_since(Timestamp(0)), std::time::Duration::from_secs(1));
    assert_eq!(Timestamp(5).duration_since(Timestamp(9)), std::time::Duration::from_micros(0));
    assert_eq!(t.saturating_add(std::time::Duration::from_millis(3)), Timestamp(1_003_000));
    assert_eq!(Timestamp(u64::MAX - 1).saturating_add_micros(5), Timestamp(u64::MAX));
    assert_eq!(Timestamp(3).saturating_sub_micros(5), Timestamp(0));
    assert_eq!(Timestamp(1_431_648_000_000_000).to_string(), "2015-05-15 00:00:00");
    assert_eq!(Timestamp(u64::MAX).to_string(), "18446744073709551615");
    assert!(Timestamp::now().micros() > 1_431_648_000_000_000);
}

#[test]
fn boundary_records() {
    let w = WitAmount::from(Amount((3u128 << 64) + 4));
    assert_eq!(w, WitAmount { lower_half: 4, upper_half: 3 });
    let r = Resources { fuel: 1, read_operations: 2, write_operations: 3, bytes_to_read: 4, bytes_to_write: 5, messages: 6, message_size: 7, storage_size_delta: 8 };
    let wr = WitResources::from(r);
    assert_eq!(wr.fuel, 1);
    assert_eq!(wr.storage_size_delta, 8);
    assert_eq!(wr.message_size, 7);
}

#[test]
fn amount_parses_through_from_str_trait() {
    let a: Amount = "2.25".parse().unwrap();
    assert_eq!(a, Amount(2_250_000_000_000_000_000));
}
