use redis_clone::byte_string::ByteString;
use redis_clone::errors::Error;
use redis_clone::protocol::builder::RespBuilder;
use redis_clone::protocol::decode::{decode, RespVal, DEPTH_LIMIT};
use redis_clone::protocol::{
    array_size, bulk_string_size, check_line, check_payload, decode_from, decode_in_steps,
    read_line, split_header, ProtoError, RequestDecoder, Want, MAX_LINE_LENGTH,
};
use redis_clone::request::{parse, Request};
use redis_clone::response::Response;
use redis_clone::server::{on_fault, Reaction};

#[test]
fn protocol_test_read_line() {
    let data = b"123\r\n456\r\n".to_vec();
    let mut stream: &[u8] = &data;
    let mut buffer = vec![];

    read_line(&mut stream, &mut buffer).unwrap();
    assert_eq!(buffer, b"123");

    buffer.clear();
    read_line(&mut stream, &mut buffer).unwrap();
    assert_eq!(buffer, b"456");

    buffer.clear();
    assert_eq!(
        read_line(&mut stream, &mut buffer).unwrap_err(),
        ProtoError::ConnectionClosed
    );
}

#[test]
fn protocol_test_read_line_invalid_terminator() {
    // Valid case: an empty line
    let mut buffer = vec![];
    let mut input: &[u8] = b"\r\n";
    read_line(&mut input, &mut buffer).unwrap();
    assert_eq!(buffer, b"");

    // Invalid case: a single LF without a CR
    let mut buffer = vec![];
    let mut input: &[u8] = b"\n";
    let result = read_line(&mut input, &mut buffer);
    assert_eq!(result.unwrap_err(), ProtoError::InvalidTerminator);

    // Invalid case: a single LF preceeded by something other than a CR
    let mut buffer = vec![];
    let mut input: &[u8] = b"x\n";
    let result = read_line(&mut input, &mut buffer);
    assert_eq!(result.unwrap_err(), ProtoError::InvalidTerminator);

    // Invalid case: a single CR followed by not a LF
    let mut buffer = vec![];
    let mut input: &[u8] = b"\rx";
    let result = read_line(&mut input, &mut buffer);
    assert_eq!(result.unwrap_err(), ProtoError::InvalidTerminator);

    // Invalid case: no terminator
    let mut buffer = vec![];
    let mut input: &[u8] = b"x";
    let result = read_line(&mut input, &mut buffer);
    assert_eq!(result.unwrap_err(), ProtoError::InvalidTerminator);
}

#[test]
fn protocol_test_read_line_gt_max() {
    let mut buffer = vec![];
    let input: Vec<u8> = b"0".repeat(MAX_LINE_LENGTH + 1);
    let mut slice = input.as_slice();

    let result = read_line(&mut slice, &mut buffer);
    assert_eq!(result.unwrap_err(), ProtoError::ExceededMaxLineLength);
}

#[test]
fn decode_not_an_array() {
    let input: &[u8] = b"x\r\n";
    let result = redis_clone::protocol::decode(input);
    assert_eq!(result.unwrap_err(), ProtoError::UnsupportedSymbol('x'));
}

#[test]
fn protocol_decode_null_array() {
    let input: &[u8] = b"*-1\r\n";
    let result = redis_clone::protocol::decode(input);
    assert_eq!(result.unwrap_err(), ProtoError::EmptyRequest);
}

#[test]
fn protocol_decode_empty_array() {
    let input: &[u8] = b"*0\r\n";
    let result = redis_clone::protocol::decode(input);
    assert_eq!(result.unwrap_err(), ProtoError::EmptyRequest);
}

#[test]
fn decode_array_of_bulk_string() {
    let input: &[u8] = b"*2\r\n$8\r\nabc\r\ndef\r\n$3\r\n123\r\n";
    let result = redis_clone::protocol::decode(input);
    assert_eq!(
        result.unwrap(),
        vec![ByteString::from("abc\r\ndef"), ByteString::from("123")]
    );
}

#[test]
fn decode_array_of_not_bulk_string() {
    let input: &[u8] = b"*1\r\n:1\r\n";
    let result = redis_clone::protocol::decode(input);
    assert_eq!(result.unwrap_err(), ProtoError::UnsupportedSymbol(':'));
}

#[test]
fn protocol_decode_empty_bulk_string() {
    let input: &[u8] = b"*1\r\n$0\r\n\r\n";
    let result = redis_clone::protocol::decode(input);
    assert_eq!(result.unwrap(), vec![ByteString::from("")]);
}

#[test]
fn protocol_array_invalid_size_overflow() {
    // i64 max + 1
    let input: &[u8] = b"*9223372036854775808\r\n";

    let result = redis_clone::protocol::decode(input);
    assert_eq!(result.unwrap_err(), ProtoError::InvalidArraySize);
}

#[test]
fn protocol_array_invalid_size_negative() {
    let input: &[u8] = b"*-2\r\n";

    let result = redis_clone::protocol::decode(input);
    assert_eq!(result.unwrap_err(), ProtoError::InvalidArraySize);
}

#[test]
fn protocol_array_invalid_size_gt_max() {
    // 1024 * 1024 + 1 is too large
    let input: &[u8] = b"*1048577\r\n";

    let result = redis_clone::protocol::decode(input);
    assert_eq!(result.unwrap_err(), ProtoError::InvalidArraySize);
}

#[test]
fn protocol_bulk_string_invalid_size_overflow() {
    // i64 max + 1
    let input: &[u8] = b"*1\r\n$9223372036854775808\r\n";

    let result = redis_clone::protocol::decode(input);
    assert_eq!(result.unwrap_err(), ProtoError::InvalidBulkStringSize);
}

#[test]
fn protocol_bulk_string_invalid_size_negative() {
    // The -1 "null string" marker is no size in a request
    let input: &[u8] = b"*1\r\n$-1\r\n";

    let result = redis_clone::protocol::decode(input);
    assert_eq!(result.unwrap_err(), ProtoError::InvalidBulkStringSize);
}

#[test]
fn protocol_bulk_string_invalid_size_gt_max() {
    // 512 * 1024 * 1024 + 1 is too large
    let input: &[u8] = b"*1\r\n$536870913\r\n";

    let result = redis_clone::protocol::decode(input);
    assert_eq!(result.unwrap_err(), ProtoError::InvalidBulkStringSize);
}

#[test]
fn test_builder() {
    let mut builder = RespBuilder::new();
    builder.add_array_len(4);
    builder.add_integer(23);
    builder.add_simple_string("x y z");
    builder.add_bulk_string("x\ny\nz");
    builder.add_error("ERR poop detected");

    let expected = b"\
                *4\r\n\
                :23\r\n\
                +x y z\r\n\
                $5\r\n\
                x\ny\nz\r\n\
                -ERR poop detected\r\n"
        .to_vec();

    assert_eq!(builder.as_bytes(), expected);
}

#[test]
fn test_builder_decodes_what_it_built() {
    let mut builder = RespBuilder::new();
    builder.add_array_len(4);
    builder.add_integer(23);
    builder.add_simple_string("x y z");
    builder.add_bulk_string("x\ny\nz");
    builder.add_error("ERR poop detected");
    assert_eq!(
        builder.decode().unwrap(),
        RespVal::Array(Some(vec![
            RespVal::Integer(23),
            RespVal::SimpleString("x y z".into()),
            RespVal::BulkString(Some("x\ny\nz".into())),
            RespVal::Error("ERR poop detected".into()),
        ]))
    );
    assert_eq!(RespBuilder::new().as_bytes(), b"\r\n".to_vec());
    assert_eq!(RespBuilder::new().decode().unwrap_err(), ProtoError::MissingSymbol);
}

#[test]
fn decode_test_read_line() {
    let data = b"123\r\n456\r\n".to_vec();
    let mut stream: &[u8] = &data;
    let mut buffer = vec![];

    read_line(&mut stream, &mut buffer).unwrap();
    assert_eq!(buffer, b"123");

    buffer.clear();
    read_line(&mut stream, &mut buffer).unwrap();
    assert_eq!(buffer, b"456");

    buffer.clear();
    assert_eq!(
        read_line(&mut stream, &mut buffer).unwrap_err(),
        ProtoError::ConnectionClosed
    );
}

#[test]
fn decode_test_read_line_invalid_terminator() {
    // Valid case: an empty line
    let mut buffer = vec![];
    let mut input: &[u8] = b"\r\n";
    read_line(&mut input, &mut buffer).unwrap();
    assert_eq!(buffer, b"");

    // Invalid case: a single LF without a CR
    let mut buffer = vec![];
    let mut input: &[u8] = b"\n";
    let result = read_line(&mut input, &mut buffer);
    assert_eq!(result.unwrap_err(), ProtoError::InvalidTerminator);

    // Invalid case: a single LF preceeded by something other than a CR
    let mut buffer = vec![];
    let mut input: &[u8] = b"x\n";
    let result = read_line(&mut input, &mut buffer);
    assert_eq!(result.unwrap_err(), ProtoError::InvalidTerminator);

    // Invalid case: a single CR followed by not a LF
    let mut buffer = vec![];
    let mut input: &[u8] = b"\rx";
    let result = read_line(&mut input, &mut buffer);
    assert_eq!(result.unwrap_err(), ProtoError::InvalidTerminator);

    // Invalid case: no terminator
    let mut buffer = vec![];
    let mut input: &[u8] = b"x";
    let result = read_line(&mut input, &mut buffer);
    assert_eq!(result.unwrap_err(), ProtoError::InvalidTerminator);
}

#[test]
fn decode_test_read_line_gt_max() {
    let mut buffer = vec![];
    let input: Vec<u8> = b"0".repeat(MAX_LINE_LENGTH + 1);

    let result = read_line(&mut input.as_slice(), &mut buffer);
    assert_eq!(result.unwrap_err(), ProtoError::ExceededMaxLineLength);
}

#[test]
fn decode_simple_string() {
    let input: &[u8] = b"+OK\r\n";
    let result = decode(input);
    assert_eq!(result.unwrap(), RespVal::SimpleString("OK".into()));
}

#[test]
fn decode_error() {
    let input: &[u8] = b"-Error message\r\n";
    let result = decode(input);
    assert_eq!(result.unwrap(), RespVal::Error("Error message".into()));
}

#[test]
fn decode_integer() {
    let input: &[u8] = b":1000\r\n";
    let result = decode(input);
    assert_eq!(result.unwrap(), RespVal::Integer(1000i64));
}

#[test]
fn decode_bulk_string() {
    let input: &[u8] = b"$8\r\nabc\r\ndef\r\n";
    let result = decode(input);
    assert_eq!(
        result.unwrap(),
        RespVal::BulkString(Some("abc\r\ndef".into()))
    );
}

#[test]
fn decode_decode_empty_bulk_string() {
    let input: &[u8] = b"$0\r\n\r\n";
    let result = decode(input);
    assert_eq!(result.unwrap(), RespVal::BulkString(Some("".into())));
}

#[test]
fn decode_null_bulk_string() {
    let input: &[u8] = b"$-1\r\n";
    let result = decode(input);
    assert_eq!(result.unwrap(), RespVal::BulkString(None));
}

#[test]
fn decode_decode_null_array() {
    let input: &[u8] = b"*-1\r\n";
    let result = decode(input);
    assert_eq!(result.unwrap(), RespVal::Array(None));
}

#[test]
fn decode_decode_empty_array() {
    let input: &[u8] = b"*0\r\n";
    let result = decode(input);
    assert_eq!(result.unwrap(), RespVal::Array(Some(vec![])));
}

#[test]
fn decode_array_of_mixed() {
    let input: &[u8] = b"\
                                *5\r\n\
                                +1\r\n\
                                -2\r\n\
                                :3\r\n\
                                $1\r\n4\r\n\
                                *1\r\n\
                                *1\r\n\
                                *-1\r\n\
                            ";
    let result = decode(input);
    assert_eq!(
        result.unwrap(),
        RespVal::Array(Some(vec![
            RespVal::SimpleString("1".into()),
            RespVal::Error("2".into()),
            RespVal::Integer(3),
            RespVal::BulkString(Some("4".into())),
            RespVal::Array(Some(vec![RespVal::Array(Some(
                vec![RespVal::Array(None),]
            )),]))
        ]))
    );
}

#[test]
fn limit_recursion() {
    // Recurse beyond the limit
    let input: Vec<u8> = b"*1\r\n".repeat(DEPTH_LIMIT + 1);

    let result = decode(input.as_slice());
    assert_eq!(result.unwrap_err(), ProtoError::ExceededDepthLimit);
}

#[test]
fn decode_array_invalid_size_overflow() {
    // i64 max + 1
    let input: &[u8] = b"*9223372036854775808\r\n";

    let result = decode(input);
    assert_eq!(result.unwrap_err(), ProtoError::InvalidArraySize);
}

#[test]
fn decode_array_invalid_size_negative() {
    let input: &[u8] = b"*-2\r\n";

    let result = decode(input);
    assert_eq!(result.unwrap_err(), ProtoError::InvalidArraySize);
}

#[test]
fn decode_array_invalid_size_gt_max() {
    // 1024 * 1024 + 1 is too large
    let input: &[u8] = b"*1048577\r\n";

    let result = decode(input);
    assert_eq!(result.unwrap_err(), ProtoError::InvalidArraySize);
}

#[test]
fn decode_bulk_string_invalid_size_overflow() {
    // i64 max + 1
    let input: &[u8] = b"$9223372036854775808\r\n";

    let result = decode(input);
    assert_eq!(result.unwrap_err(), ProtoError::InvalidBulkStringSize);
}

#[test]
fn decode_bulk_string_invalid_size_negative() {
    let input: &[u8] = b"$-2\r\n";

    let result = decode(input);
    assert_eq!(result.unwrap_err(), ProtoError::InvalidBulkStringSize);
}

#[test]
fn decode_bulk_string_invalid_size_gt_max() {
    // 512 * 1024 * 1024 + 1 is too large
    let input: &[u8] = b"$536870913\r\n";

    let result = decode(input);
    assert_eq!(result.unwrap_err(), ProtoError::InvalidBulkStringSize);
}

#[test]
fn io_test_read_line() {
    let data = b"123\r\n456\r\n".to_vec();
    let mut stream: &[u8] = &data;
    let mut buffer = vec![];

    read_line(&mut stream, &mut buffer).unwrap();
    assert_eq!(buffer, b"123");

    buffer.clear();
    read_line(&mut stream, &mut buffer).unwrap();
    assert_eq!(buffer, b"456");

    buffer.clear();
    assert_eq!(
        read_line(&mut stream, &mut buffer).unwrap_err(),
        ProtoError::ConnectionClosed
    );
}

#[test]
fn io_test_read_line_invalid_terminator() {
    // Valid case: an empty line
    let mut buffer = vec![];
    let mut input: &[u8] = b"\r\n";
    read_line(&mut input, &mut buffer).unwrap();
    assert_eq!(buffer, b"");

    // Invalid case: a single LF without a CR
    let mut buffer = vec![];
    let mut input: &[u8] = b"\n";
    let result = read_line(&mut input, &mut buffer);
    assert_eq!(result.unwrap_err(), ProtoError::InvalidTerminator);

    // Invalid case: a single LF preceeded by something other than a CR
    let mut buffer = vec![];
    let mut input: &[u8] = b"x\n";
    let result = read_line(&mut input, &mut buffer);
    assert_eq!(result.unwrap_err(), ProtoError::InvalidTerminator);

    // Invalid case: a single CR followed by not a LF
    let mut buffer = vec![];
    let mut input: &[u8] = b"\rx";
    let result = read_line(&mut input, &mut buffer);
    assert_eq!(result.unwrap_err(), ProtoError::InvalidTerminator);

    // Invalid case: no terminator
    let mut buffer = vec![];
    let mut input: &[u8] = b"x";
    let result = read_line(&mut input, &mut buffer);
    assert_eq!(result.unwrap_err(), ProtoError::InvalidTerminator);
}

#[test]
fn io_test_read_line_gt_max() {
    let mut buffer = vec![];
    let input: Vec<u8> = b"0".repeat(MAX_LINE_LENGTH + 1);

    let result = read_line(&mut input.as_slice(), &mut buffer);
    assert_eq!(result.unwrap_err(), ProtoError::ExceededMaxLineLength);
}

#[test]
fn test_read_line_at_the_limit() {
    // A line of exactly the longest length is read
    let mut input: Vec<u8> = b"0".repeat(MAX_LINE_LENGTH - 2);
    input.extend_from_slice(b"\r\nrest");
    let mut stream = input.as_slice();
    let mut buffer = vec![];
    read_line(&mut stream, &mut buffer).unwrap();
    assert_eq!(buffer.len(), MAX_LINE_LENGTH - 2);
    assert_eq!(stream, b"rest");

    // One byte more and the CR LF falls outside what is read
    let mut input: Vec<u8> = b"0".repeat(MAX_LINE_LENGTH - 1);
    input.extend_from_slice(b"\r\n");
    let mut stream = input.as_slice();
    let mut buffer = vec![];
    assert_eq!(
        read_line(&mut stream, &mut buffer).unwrap_err(),
        ProtoError::ExceededMaxLineLength
    );
    assert_eq!(buffer.len(), MAX_LINE_LENGTH);
    assert_eq!(stream, b"\n");

    // A failed read leaves what it took in the buffer
    let mut stream: &[u8] = b"ab\ncd";
    let mut buffer = b"..".to_vec();
    assert_eq!(
        read_line(&mut stream, &mut buffer).unwrap_err(),
        ProtoError::InvalidTerminator
    );
    assert_eq!(buffer, b"..ab\n");
    assert_eq!(stream, b"cd");
}

#[test]
fn test_steps_of_the_decoder() {
    assert_eq!(check_line(b"abc\r\n"), Ok(&b"abc"[..]));
    assert_eq!(check_line(b""), Err(ProtoError::ConnectionClosed));
    assert_eq!(check_line(b"\n"), Err(ProtoError::InvalidTerminator));
    assert_eq!(check_line(b"abc\n\r"), Err(ProtoError::InvalidTerminator));
    assert_eq!(split_header(b"*12"), Ok((b'*', &b"12"[..])));
    assert_eq!(split_header(b""), Err(ProtoError::MissingSymbol));
    assert_eq!(array_size(b"3"), Ok(3));
    assert_eq!(array_size(b"+3"), Ok(3));
    assert_eq!(array_size(b"1048576"), Ok(1048576));
    assert_eq!(array_size(b"1048577"), Err(ProtoError::InvalidArraySize));
    assert_eq!(array_size(b"0"), Err(ProtoError::EmptyRequest));
    assert_eq!(array_size(b"-1"), Err(ProtoError::EmptyRequest));
    assert_eq!(array_size(b"-2"), Err(ProtoError::InvalidArraySize));
    assert_eq!(array_size(b""), Err(ProtoError::InvalidArraySize));
    assert_eq!(array_size(b"x"), Err(ProtoError::InvalidArraySize));
    assert_eq!(bulk_string_size(b"0"), Ok(0));
    assert_eq!(bulk_string_size(b"536870912"), Ok(536870912));
    assert_eq!(bulk_string_size(b"536870913"), Err(ProtoError::InvalidBulkStringSize));
    assert_eq!(bulk_string_size(b"-1"), Err(ProtoError::InvalidBulkStringSize));
    assert_eq!(bulk_string_size(b"1 "), Err(ProtoError::InvalidBulkStringSize));
    assert_eq!(check_payload(b"abc\r\n", 3), Ok(ByteString::from("abc")));
    assert_eq!(check_payload(b"abc\r\nmore", 3), Ok(ByteString::from("abc")));
    assert_eq!(check_payload(b"abc\r", 3), Err(ProtoError::UnexpectedEof));
    assert_eq!(check_payload(b"abcd\r\n", 3), Err(ProtoError::InvalidTerminator));
    assert_eq!(check_payload(b"\r\n", 0), Ok(ByteString::from("")));
}

#[test]
fn test_requests_in_a_row() {
    let mut stream: &[u8] = b"*1\r\n$4\r\nPING\r\n*2\r\n$3\r\nGET\r\n$1\r\nx\r\n*1\r\n$3\r\nab";
    assert_eq!(decode_from(&mut stream), Ok(vec![ByteString::from("PING")]));
    let request = parse(&mut stream).unwrap();
    assert_eq!(
        request,
        Request::try_from(vec!["GET".into(), "x".into()]).unwrap()
    );
    assert_eq!(stream, b"*1\r\n$3\r\nab");
    assert_eq!(
        parse(&mut stream),
        Err(Error::Proto(ProtoError::UnexpectedEof))
    );
    let mut stream: &[u8] = b"*0\r\n";
    assert_eq!(parse(&mut stream), Err(Error::EmptyRequest));
    let mut stream: &[u8] = b"";
    assert_eq!(parse(&mut stream), Err(Error::Proto(ProtoError::ConnectionClosed)));
    let mut stream: &[u8] = b"*1\r\n";
    assert_eq!(parse(&mut stream), Err(Error::Proto(ProtoError::ConnectionClosed)));
    let mut stream: &[u8] = b"\r\n";
    assert_eq!(parse(&mut stream), Err(Error::Proto(ProtoError::MissingSymbol)));
    let mut stream: &[u8] = b"*1\r\n$3\r\nabcd\r\n";
    assert_eq!(parse(&mut stream), Err(Error::Proto(ProtoError::InvalidTerminator)));
}

#[test]
fn test_decode_faults() {
    assert_eq!(decode(b"").unwrap_err(), ProtoError::ConnectionClosed);
    assert_eq!(decode(b"?what\r\n").unwrap_err(), ProtoError::UnsupportedSymbol('?'));
    assert_eq!(decode(b":12x\r\n").unwrap_err(), ProtoError::InvalidInteger);
    assert_eq!(decode(b":\r\n").unwrap_err(), ProtoError::InvalidInteger);
    assert_eq!(decode(b"$3\r\nab").unwrap_err(), ProtoError::UnexpectedEof);
    assert_eq!(decode(b"$3\r\nabcde").unwrap_err(), ProtoError::InvalidTerminator);
    assert_eq!(decode(b"*2\r\n:1\r\n").unwrap_err(), ProtoError::ConnectionClosed);
    assert_eq!(decode(b"*x\r\n").unwrap_err(), ProtoError::InvalidArraySize);
    assert_eq!(decode(b"$x\r\n").unwrap_err(), ProtoError::InvalidBulkStringSize);
    assert_eq!(decode(b"\r\n").unwrap_err(), ProtoError::MissingSymbol);
    assert_eq!(decode(b"+\xff\r\n").unwrap(), RespVal::SimpleString(ByteString::from(b"\xff")));
    assert_eq!(decode(b":-9223372036854775808\r\n").unwrap(), RespVal::Integer(i64::MIN));
    // As deep as arrays may go
    let mut input: Vec<u8> = b"*1\r\n".repeat(DEPTH_LIMIT);
    input.extend_from_slice(b":7\r\n");
    assert!(decode(input.as_slice()).is_ok());
}

#[test]
fn test_what_is_encoded_decodes_to_itself() {
    let argv: Vec<ByteString> = vec![
        ByteString::from("SET"),
        ByteString::from(b"\x00\xff\r\n"),
        ByteString::from(""),
        ByteString::from("0123456789".repeat(1000)),
    ];
    let mut response = Response::new();
    response.add_array_len(argv.len() as i64);
    for arg in &argv {
        response.add_bulk_string(arg);
    }
    let mut stream = response.as_bytes();
    assert_eq!(decode_from(&mut stream), Ok(argv));
    assert_eq!(stream, b"");
}

#[test]
fn test_decoder_in_steps() {
    let mut decoder = RequestDecoder::new();
    assert_eq!(decoder.want(), Want::Line);
    assert_eq!(decoder.line(b"*2\r\n"), Ok(()));
    assert_eq!(decoder.want(), Want::Line);
    assert_eq!(decoder.line(b"$3\r\n"), Ok(()));
    assert_eq!(decoder.want(), Want::Payload(5));
    assert_eq!(decoder.payload(b"GET\r\n"), Ok(()));
    assert_eq!(decoder.want(), Want::Line);
    assert_eq!(decoder.line(b":1\r\n"), Err(ProtoError::UnsupportedSymbol(':')));
    assert_eq!(decoder.line(b"$x\r\n"), Err(ProtoError::InvalidBulkStringSize));
    assert_eq!(decoder.line(b""), Err(ProtoError::ConnectionClosed));
    assert_eq!(decoder.line(b"$1\r\n"), Ok(()));
    assert_eq!(decoder.want(), Want::Payload(3));
    assert_eq!(decoder.payload(b"x\r"), Err(ProtoError::UnexpectedEof));
    assert_eq!(decoder.payload(b"xyz"), Err(ProtoError::InvalidTerminator));
    assert_eq!(decoder.want(), Want::Payload(3));
    assert_eq!(decoder.payload(b"x\r\n"), Ok(()));
    assert_eq!(decoder.want(), Want::Nothing);
    assert_eq!(decoder.finish(), vec![ByteString::from("GET"), ByteString::from("x")]);

    let mut decoder = RequestDecoder::new();
    assert_eq!(decoder.line(b"$3\r\n"), Err(ProtoError::UnsupportedSymbol('$')));
    assert_eq!(decoder.line(b"*0\r\n"), Err(ProtoError::EmptyRequest));
    assert_eq!(decoder.line(b"\r\n"), Err(ProtoError::MissingSymbol));
    assert_eq!(decoder.want(), Want::Line);
}

#[test]
fn test_both_decoders_agree() {
    let inputs: [&[u8]; 12] = [
        b"*2\r\n$3\r\nGET\r\n$1\r\nx\r\nmore",
        b"*1\r\n$0\r\n\r\n",
        b"*1\r\n$3\r\nab",
        b"*1\r\n$3\r\nabcd\r\n",
        b"*2\r\n$1\r\na\r\n",
        b"*-1\r\n",
        b"*1048577\r\n",
        b"+OK\r\n",
        b"*1\r\n:1\r\n",
        b"*1\r\n$\r\n",
        b"",
        b"*1\n",
    ];
    for input in inputs {
        let mut one = input;
        let mut other = input;
        let whole = decode_from(&mut one);
        let stepwise = decode_in_steps(&mut other);
        assert_eq!(whole, stepwise);
        if whole.is_ok() {
            assert_eq!(one, other);
        }
    }
}

#[test]
fn test_reaction_to_faults() {
    assert!(matches!(
        on_fault(&Error::Proto(ProtoError::ConnectionClosed)),
        Reaction::Close
    ));
    assert!(matches!(on_fault(&Error::EmptyRequest), Reaction::Continue));
    match on_fault(&Error::Proto(ProtoError::InvalidTerminator)) {
        Reaction::ReplyAndClose(reply) => {
            assert_eq!(reply.as_bytes(), b"-ERR InvalidTerminator\r\n")
        }
        _ => panic!("a reply is due"),
    }
    match on_fault(&Error::Proto(ProtoError::UnsupportedSymbol('x'))) {
        Reaction::ReplyAndClose(reply) => {
            assert_eq!(reply.as_bytes(), b"-ERR UnsupportedSymbol: x\r\n")
        }
        _ => panic!("a reply is due"),
    }
    match on_fault(&Error::from("odd")) {
        Reaction::ReplyAndClose(reply) => assert_eq!(reply.as_bytes(), b"-ERR odd\r\n"),
        _ => panic!("a reply is due"),
    }
}
