use redis_clone::byte_string::{from_bytes, ByteStr, Number, ParseIntError};

#[test]
fn test_from_bytes_i64() {
    // Success cases
    assert_eq!(from_bytes::<i64>(b"0"), Ok(0));
    assert_eq!(from_bytes::<i64>(b"1"), Ok(1));
    assert_eq!(from_bytes::<i64>(b"+0"), Ok(0));
    assert_eq!(from_bytes::<i64>(b"-0"), Ok(0));
    assert_eq!(from_bytes::<i64>(b"+1"), Ok(1));
    assert_eq!(from_bytes::<i64>(b"-1"), Ok(-1));
    assert_eq!(from_bytes::<i64>(b"+9223372036854775807"), Ok(std::i64::MAX));
    assert_eq!(from_bytes::<i64>(b"-9223372036854775808"), Ok(std::i64::MIN));

    // Error cases
    assert_eq!(from_bytes::<i64>(b""), Err(ParseIntError));
    assert_eq!(from_bytes::<i64>(b"x"), Err(ParseIntError));

    // The final mul by the radix will overflow
    assert_eq!(from_bytes::<i64>(b"92233720368547758071"), Err(ParseIntError));

    // The adding the final 8 digit will overflow
    assert_eq!(from_bytes::<i64>(b"9223372036854775808"), Err(ParseIntError));
}

#[test]
fn test_from_bytes_isize() {
    // Success cases
    assert_eq!(from_bytes::<isize>(b"0"), Ok(0));
    assert_eq!(from_bytes::<isize>(b"1"), Ok(1));
    assert_eq!(from_bytes::<isize>(b"+0"), Ok(0));
    assert_eq!(from_bytes::<isize>(b"-0"), Ok(0));
    assert_eq!(from_bytes::<isize>(b"+1"), Ok(1));
    assert_eq!(from_bytes::<isize>(b"-1"), Ok(-1));
    assert_eq!(from_bytes::<isize>(b"+9223372036854775807"), Ok(std::isize::MAX));
    assert_eq!(from_bytes::<isize>(b"-9223372036854775808"), Ok(std::isize::MIN));

    // Error cases
    assert_eq!(from_bytes::<isize>(b""), Err(ParseIntError));
    assert_eq!(from_bytes::<isize>(b"x"), Err(ParseIntError));

    // The final mul by the radix will overflow
    assert_eq!(from_bytes::<isize>(b"92233720368547758071"), Err(ParseIntError));

    // The adding the final 8 digit will overflow
    assert_eq!(from_bytes::<isize>(b"9223372036854775808"), Err(ParseIntError));
}

#[test]
fn test_from_bytes_wants_a_digit() {
    assert_eq!(from_bytes::<i64>(b"+"), Err(ParseIntError));
    assert_eq!(from_bytes::<i64>(b"-"), Err(ParseIntError));
    assert_eq!(from_bytes::<i64>(b"--1"), Err(ParseIntError));
    assert_eq!(from_bytes::<i64>(b"+-1"), Err(ParseIntError));
    assert_eq!(from_bytes::<i64>(b"1-"), Err(ParseIntError));
    assert_eq!(from_bytes::<i64>(b" 1"), Err(ParseIntError));
    assert_eq!(from_bytes::<i64>(b"1 "), Err(ParseIntError));
    assert_eq!(from_bytes::<i64>(b"12a"), Err(ParseIntError));
    assert_eq!(from_bytes::<i64>(b"1.5"), Err(ParseIntError));
    assert_eq!(from_bytes::<i64>(b"/"), Err(ParseIntError));
    assert_eq!(from_bytes::<i64>(b":"), Err(ParseIntError));
}

#[test]
fn test_from_bytes_leading_zeros_and_edges() {
    assert_eq!(from_bytes::<i64>(b"0000000000000000000000000000042"), Ok(42));
    assert_eq!(from_bytes::<i64>(b"-0000000000000000000000000000042"), Ok(-42));
    assert_eq!(from_bytes::<i64>(b"9223372036854775807"), Ok(std::i64::MAX));
    assert_eq!(from_bytes::<i64>(b"-9223372036854775809"), Err(ParseIntError));
    assert_eq!(from_bytes::<i64>(b"99999999999999999999x"), Err(ParseIntError));
    assert_eq!(from_bytes::<i64>(b"1234567890"), Ok(1234567890));
}

#[test]
fn test_number_operations() {
    assert_eq!(<i64 as Number>::from(7), 7i64);
    assert_eq!(Number::checked_add(i64::MAX, 1), None);
    assert_eq!(Number::checked_add(40i64, 2), Some(42));
    assert_eq!(Number::checked_mul(i64::MAX, 2), None);
    assert_eq!(Number::checked_mul(-6i64, 7), Some(-42));
    assert_eq!(Number::checked_neg(i64::MIN), None);
    assert_eq!(Number::checked_neg(5isize), Some(-5));
}

#[test]
fn test_parse_error_text() {
    assert_eq!(ParseIntError.to_string(), "error parsing int from byte string");
    assert_eq!(ByteStr::from("12").parse::<isize>(), Ok(12isize));
}
