use litebin::{delay, specified_delay, Delay, DelayError};

#[test]
fn bare_delay_is_one_second() {
    assert_eq!(delay(), Delay { secs: 1, nanos: 0 });
}

#[test]
fn whole_seconds() {
    assert_eq!(specified_delay(b"2"), Ok(Delay { secs: 2, nanos: 0 }));
    assert_eq!(specified_delay(b"0"), Ok(Delay { secs: 0, nanos: 0 }));
    assert_eq!(specified_delay(b"007"), Ok(Delay { secs: 7, nanos: 0 }));
}

#[test]
fn fractional_seconds() {
    assert_eq!(specified_delay(b"1.5"), Ok(Delay { secs: 1, nanos: 500_000_000 }));
    assert_eq!(specified_delay(b".5"), Ok(Delay { secs: 0, nanos: 500_000_000 }));
    assert_eq!(specified_delay(b"3."), Ok(Delay { secs: 3, nanos: 0 }));
    assert_eq!(specified_delay(b"0.000000001"), Ok(Delay { secs: 0, nanos: 1 }));
    assert_eq!(
        specified_delay(b"0.1234567899"),
        Ok(Delay { secs: 0, nanos: 123_456_789 })
    );
}

#[test]
fn malformed_seconds() {
    for s in [
        &b"abc"[..],
        b"",
        b".",
        b"-1",
        b"-1e3",
        b"-0.1",
        b"-1e-20",
        b"-",
        b"+-0",
        b"1.2.3",
        b"1.x",
        b"++1",
        b"+",
        b"1e",
        b"1e+",
        b"e5",
        b".e1",
        b"1e3.5",
        b"inf",
        b"nan",
        b"99999999999999999999x",
    ] {
        assert_eq!(specified_delay(s), Err(DelayError::Malformed), "{:?}", s);
    }
}

#[test]
fn largest_whole_seconds() {
    assert_eq!(
        specified_delay(b"18446744073709551615"),
        Ok(Delay { secs: u64::MAX, nanos: 0 })
    );
    assert_eq!(specified_delay(b"18446744073709551616"), Err(DelayError::TooLong));
    assert_eq!(specified_delay(b"100000000000000000000.5"), Err(DelayError::TooLong));
}

#[test]
fn leading_plus_sign() {
    assert_eq!(specified_delay(b"+1"), Ok(Delay { secs: 1, nanos: 0 }));
    assert_eq!(specified_delay(b"+.5"), Ok(Delay { secs: 0, nanos: 500_000_000 }));
}

#[test]
fn exponent_moves_the_point() {
    assert_eq!(specified_delay(b"1e0"), Ok(Delay { secs: 1, nanos: 0 }));
    assert_eq!(specified_delay(b"1e3"), Ok(Delay { secs: 1000, nanos: 0 }));
    assert_eq!(specified_delay(b"1E3"), Ok(Delay { secs: 1000, nanos: 0 }));
    assert_eq!(specified_delay(b"1.5e+2"), Ok(Delay { secs: 150, nanos: 0 }));
    assert_eq!(specified_delay(b"2.5e-1"), Ok(Delay { secs: 0, nanos: 250_000_000 }));
    assert_eq!(specified_delay(b"123456789e-9"), Ok(Delay { secs: 0, nanos: 123_456_789 }));
    assert_eq!(specified_delay(b"1.e1"), Ok(Delay { secs: 10, nanos: 0 }));
    assert_eq!(specified_delay(b"1e19"), Ok(Delay { secs: 10_000_000_000_000_000_000, nanos: 0 }));
}

#[test]
fn extreme_exponents() {
    assert_eq!(specified_delay(b"1e-10"), Ok(Delay { secs: 0, nanos: 0 }));
    assert_eq!(
        specified_delay(b"5e-99999999999999999999999999"),
        Ok(Delay { secs: 0, nanos: 0 })
    );
    assert_eq!(
        specified_delay(b"0e99999999999999999999999999"),
        Ok(Delay { secs: 0, nanos: 0 })
    );
    assert_eq!(specified_delay(b"1e20"), Err(DelayError::TooLong));
    assert_eq!(
        specified_delay(b"1e99999999999999999999999999"),
        Err(DelayError::TooLong)
    );
    assert_eq!(specified_delay(b"0.0001e24"), Err(DelayError::TooLong));
}

#[test]
fn negative_zero_is_zero() {
    for s in [&b"-0"[..], b"-0.0", b"-0e3", b"-.0", b"-00.000e-7"] {
        assert_eq!(specified_delay(s), Ok(Delay { secs: 0, nanos: 0 }), "{:?}", s);
    }
}
