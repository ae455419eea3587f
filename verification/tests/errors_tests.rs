use redis_clone::errors::Error;
use redis_clone::protocol::ProtoError;

#[test]
fn test_from_resp_error() {
    assert_eq!(
        Error::from(ProtoError::InvalidTerminator),
        Error::Proto(ProtoError::InvalidTerminator)
    );

    assert_eq!(Error::from(ProtoError::EmptyRequest), Error::EmptyRequest,);
}

#[test]
fn test_error_texts() {
    assert_eq!(Error::EmptyRequest.to_string(), "Empty query");
    assert_eq!(Error::UnimplementedCommand.to_string(), "Unimplemented command");
    assert_eq!(Error::UnsupportedRequestType.to_string(), "Unsupported request type");
    assert_eq!(Error::from("boom").to_string(), "boom");
    assert_eq!(Error::from("boom".to_string()), Error::Message("boom".to_string()));
    assert_eq!(Error::message("boom"), Error::Message("boom".to_string()));
    assert_eq!(
        Error::ProtocolError.to_string(),
        "Protocol error: expected '$', got something else"
    );
    assert_eq!(
        Error::Proto(ProtoError::UnsupportedSymbol('x')).to_string(),
        "UnsupportedSymbol: x"
    );
    let cast = i8::try_from(1000i64).unwrap_err();
    assert_eq!(Error::from(cast), Error::CastingInt(cast));
    assert_eq!(
        Error::CastingInt(cast).to_string(),
        "out of range integral type conversion attempted"
    );
}

#[test]
fn test_proto_error_texts() {
    assert_eq!(ProtoError::ConnectionClosed.to_string(), "ConnectionClosed");
    assert_eq!(ProtoError::ExceededDepthLimit.to_string(), "ExceededDepthLimit");
    assert_eq!(ProtoError::ExceededMaxLineLength.to_string(), "ExceededMaxLineLength");
    assert_eq!(ProtoError::EmptyRequest.to_string(), "EmptyRequest");
    assert_eq!(ProtoError::InvalidArraySize.to_string(), "InvalidArraySize");
    assert_eq!(ProtoError::InvalidBulkStringSize.to_string(), "InvalidBulkStringSize");
    assert_eq!(ProtoError::InvalidTerminator.to_string(), "InvalidTerminator");
    assert_eq!(ProtoError::Message("m".to_string()).to_string(), "m");
    assert_eq!(ProtoError::UnexpectedEof.to_string(), "UnexpectedEof");
    assert_eq!(ProtoError::InvalidInteger.to_string(), "InvalidInteger");
}
