use t2_bus::err::{combined_result, BusError};

#[test]
fn error_messages() {
    assert_eq!(BusError::InvalidTopicString("x".into()).to_string(), "Invalid topic string: x");
    assert_eq!(
        BusError::RequestFailedChannelClosed.to_string(),
        "Request failed: Channel closed while awaiting ACK"
    );
    assert_eq!(BusError::RequestFailedTimeout.to_string(), "Request failed: Timeout while awaiting ACK");
    assert_eq!(BusError::RequestFailed("y".into()).to_string(), "Request failed: y");
    assert_eq!(BusError::InvalidRequestId.to_string(), "Respond failed: Invalid request ID");
    assert_eq!(BusError::TopicAlreadyClaimed.to_string(), "Claim topic failed: Already claimed");
    assert_eq!(
        BusError::ClaimWildcardNotSupported.to_string(),
        "Claim topic failed: Wildcards not supported"
    );
    assert_eq!(BusError::ChannelClosed.to_string(), "Channel closed by peer");
    assert_eq!(BusError::ServiceNotFound("s".into()).to_string(), "Service not found: s");
    assert_eq!(
        BusError::DeliveryFailed(42, "gone".into()).to_string(),
        "Message delivery failed: Client #42: gone"
    );
    assert_eq!(BusError::UnknownClient(7).to_string(), "Message delivery failed: Unknown client 7");
    assert_eq!(
        BusError::MalformedMessage("p".into(), "e".into()).to_string(),
        "Deserialize message failed. Protocol: p. Error: e"
    );
    assert_eq!(BusError::UnserializableMessage("m".into()).to_string(), "Serialize message failed: m");
    assert_eq!(BusError::IOError("io".into()).to_string(), "IO error: io");
    assert_eq!(BusError::InternalError("i".into()).to_string(), "Internal error: i");
    assert_eq!(BusError::TlsConfigError("t".into()).to_string(), "TLS configuration error: t");
}

#[test]
fn combined_result_gives_the_first_error_in_order() {
    assert_eq!(combined_result(vec![]), Ok(()));
    assert_eq!(combined_result(vec![Ok(()), Ok(())]), Ok(()));
    assert_eq!(
        combined_result(vec![Ok(()), Err(BusError::ChannelClosed), Err(BusError::RequestFailedTimeout)]),
        Err(BusError::ChannelClosed)
    );
}
