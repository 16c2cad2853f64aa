use telesteller::request::{
    Error, Request, RequestFrame, TextType, Will, CONNECT, DISCONNECT, PINGREQ, PUBLISH, SUBSCRIBE,
    UNSUBSCRIBE,
};
use telesteller::Qos;

fn hex(s: &str) -> Vec<u8> {
    s.split_whitespace().map(|b| u8::from_str_radix(b, 16).unwrap()).collect()
}

/// Joins the pieces of a frame.
fn frame(parts: &[&[u8]]) -> Vec<u8> {
    parts.concat()
}

fn s1_connect() -> Vec<u8> {
    frame(&[
        &hex("10 72 00 04 4d 51 54 54 04 36 01 2c 00 31"),
        b"3e26c465-1319-4e42-8535-17ccc01fec991611762019558",
        &hex("00 0e"),
        b"/testwill/will",
        &hex("00 23"),
        b"device now go ungracefully offline.",
    ])
}

#[test]
fn test_CONNECT() {
    let result = CONNECT::from_bytes(&s1_connect()).unwrap();
    assert_eq!(result.clean_session, true);
    assert_eq!(result.keep_alive, 300);
    assert_eq!(result.client_id, "3e26c465-1319-4e42-8535-17ccc01fec991611762019558");
    assert_eq!(
        result.will,
        Some(Will {
            qos: Qos::AssuredDelivery,
            retain: true,
            topic: "/testwill/will".to_string(),
            payload: "device now go ungracefully offline.".into(),
        })
    );
    assert_eq!(result.username, None);
    assert_eq!(result.password, None);
    assert_eq!(result.protocol_version, 4);
}

#[test]
fn test_CONNECT_malformed() {
    let malformed1 = CONNECT::from_bytes(&hex(
        "10 76 00 04 4d 51 54 54 04 36 01 2c 00 31 33 65
         32 36 63 34 36 35 2d 31 33 31 39 2d 34 65 34 32",
    ))
    .unwrap_err();
    let malformed2 = CONNECT::from_bytes(&hex(
        "10 72 00 04 4d 51 54 54 04 36 01 2c 00 31 33 65
         32 36 63 34 36 35 2d 31 33 31 39 2d 34 65 34 32
         2d 38 35 33 35 2d 31 37 63 63 63 30 31 66 65 63
         39 39 31 36 31 31 37 36 32 30 31 39 35 35 38",
    ))
    .unwrap_err(); // the Will flag is set but the Will is left out
    println!("{:?}", malformed1);
    println!("{:?}", malformed2);

    assert_eq!(malformed1, Error::MalformedRequest);
    assert_eq!(malformed2, Error::MalformedRequest);
}

#[test]
fn test_CONNECT_non_utf8() {
    // ClientId
    if let Error::NonUTF8Text(type1) = CONNECT::from_bytes(&hex(
        "10 72 00 04 4d 51 54 54 04 12 01 2c 00 04 00 9F
         92 96",
    ))
    .unwrap_err()
    {
        println!("type1: {:?}", type1);
        assert_eq!(type1, TextType::ClientId);
    } else {
        assert!(false);
    }

    // WillTopic
    if let Error::NonUTF8Text(type2) = CONNECT::from_bytes(&hex(
        "10 72 00 04 4d 51 54 54 04 36 01 2c 00 31 33 65
         32 36 63 34 36 35 2d 31 33 31 39 2d 34 65 34 32
         2d 38 35 33 35 2d 31 37 63 63 63 30 31 66 65 63
         39 39 31 36 31 31 37 36 32 30 31 39 35 35 38 00
         04 00 9F 92 96 00 01 FF",
    ))
    .unwrap_err()
    {
        println!("type2: {:?}", type2);
        assert_eq!(type2, TextType::WillTopic);
    } else {
        assert!(false);
    }
}

#[test]
fn test_SUBSCRIBE() {
    let result = SUBSCRIBE::from_bytes(&hex(
        "82 13 a1 12 00 0e 2f 74 65 73 74 77 69 6c 6c 2f
         77 69 6c 6c 02",
    ))
    .unwrap();
    assert_eq!(result.id, 41234);
    assert_eq!(result.subscriptions, vec![("/testwill/will".to_owned(), Qos::AssuredDelivery)]);

    let result = SUBSCRIBE::from_bytes(&hex("82 0e 75 fb 00 03 61 2f 62 01 00 03 63 2f 64 02")).unwrap();
    assert_eq!(result.id, 30203);
    assert_eq!(
        result.subscriptions,
        vec![("a/b".to_owned(), Qos::AcknowledgedDeliver), ("c/d".to_owned(), Qos::AssuredDelivery)]
    );
}

#[test]
fn test_SUBSCRIBE_malformed() {
    let malformed1 = SUBSCRIBE::from_bytes(&hex(
        "83 13 a1 12 00 0e 2f 74 65 73 74 77 69 6c 6c 2f
         77 69 6c 6c 02",
    ))
    .unwrap_err();
    println!("{:?}", malformed1);

    assert_eq!(malformed1, Error::MalformedRequest);
}

#[test]
fn test_PUBLISH() {
    // PUBLISH with an id (QoS 2)
    let result = PUBLISH::from_bytes(&hex("34 0c 00 05 2f 61 62 63 64 a1 16 31 32 33")).unwrap();
    assert_eq!(result.dup, false);
    assert_eq!(result.qos, Qos::AssuredDelivery);
    assert_eq!(result.retain, false);
    assert_eq!(result.topic, "/abcd");
    assert_eq!(result.id, Some(41238));
    assert_eq!(result.payload, b"123".to_vec());

    // PUBLISH without an id (QoS 0)
    let result = PUBLISH::from_bytes(&hex("30 0a 00 05 2f 61 62 63 64 31 32 33")).unwrap();
    assert_eq!(result.id, None);
    assert_eq!(result.payload, b"123".to_vec());

    // PUBLISH without an id (QoS 0) and without payload
    let result = PUBLISH::from_bytes(&hex("30 07 00 05 2f 61 62 63 64")).unwrap();
    assert_eq!(result.id, None);
    assert_eq!(result.payload, Vec::<u8>::new());
}

#[test]
fn publish_keeps_its_raw_frame() {
    let bytes = hex("3b 0c 00 05 2f 61 62 63 64 00 07 31 32 33");
    let result = PUBLISH::from_bytes(&bytes).unwrap();
    assert_eq!(result.raw, bytes);
    assert!(result.dup);
    assert!(result.retain);
    assert_eq!(result.qos, Qos::AcknowledgedDeliver);
    assert_eq!(result.id, Some(7));
}

#[test]
fn publish_with_two_byte_remaining_length() {
    let payload = vec![0x61u8; 200];
    let mut bytes = hex("30 cf 01 00 05 2f 61 62 63 64");
    bytes.extend_from_slice(&payload);
    let result = PUBLISH::from_bytes(&bytes).unwrap();
    assert_eq!(result.topic, "/abcd");
    assert_eq!(result.payload, payload);
}

#[test]
fn publish_with_qos_three_is_malformed() {
    assert_eq!(
        PUBLISH::from_bytes(&hex("36 0c 00 05 2f 61 62 63 64 a1 16 31 32 33")).unwrap_err(),
        Error::MalformedRequest
    );
}

#[test]
fn publish_topic_must_be_utf8() {
    assert_eq!(
        PUBLISH::from_bytes(&hex("30 05 00 02 c3 28 31")).unwrap_err(),
        Error::NonUTF8Text(TextType::Topic)
    );
}

#[test]
fn publish_qos_one_without_id_is_malformed() {
    assert_eq!(
        PUBLISH::from_bytes(&hex("32 07 00 05 2f 61 62 63 64")).unwrap_err(),
        Error::MalformedRequest
    );
}

#[test]
fn connect_with_username_and_password() {
    let bytes = frame(&[
        &hex("10 18 00 04 4d 51 54 54 04 c2 00 0a 00 02"),
        b"id",
        &hex("00 03"),
        b"bob",
        &hex("00 03 01 02 03"),
    ]);
    let result = CONNECT::from_bytes(&bytes).unwrap();
    assert_eq!(result.client_id, "id");
    assert_eq!(result.username, Some("bob".to_string()));
    assert_eq!(result.password, Some(vec![1, 2, 3]));
    assert_eq!(result.keep_alive, 10);
    assert!(result.clean_session);
    assert_eq!(result.will, None);
}

#[test]
fn connect_non_utf8_username() {
    let bytes = frame(&[&hex("10 12 00 04 4d 51 54 54 04 82 00 0a 00 02"), b"id", &hex("00 02 ff fe")]);
    assert_eq!(CONNECT::from_bytes(&bytes).unwrap_err(), Error::NonUTF8Text(TextType::Username));
}

#[test]
fn connect_utf8_client_id_decodes() {
    let bytes = frame(&[&hex("10 10 00 04 4d 51 54 54 04 02 00 0a 00 04"), "héé".as_bytes()]);
    let result = CONNECT::from_bytes(&bytes);
    assert!(result.is_err());
    let bytes = frame(&[&hex("10 11 00 04 4d 51 54 54 04 02 00 0a 00 05"), "héé".as_bytes()]);
    assert_eq!(CONNECT::from_bytes(&bytes).unwrap().client_id, "héé");
}

#[test]
fn connect_wrong_protocol_name_is_malformed() {
    let bytes = frame(&[&hex("10 0e 00 04 4d 51 54 58 04 02 00 0a 00 02"), b"id"]);
    assert_eq!(CONNECT::from_bytes(&bytes).unwrap_err(), Error::MalformedRequest);
}

#[test]
fn connect_will_qos_three_is_malformed() {
    let bytes = frame(&[&hex("10 14 00 04 4d 51 54 54 04 1c 00 0a 00 02"), b"id", &hex("00 01 74 00 01 70")]);
    assert_eq!(CONNECT::from_bytes(&bytes).unwrap_err(), Error::MalformedRequest);
}

#[test]
fn subscribe_needs_a_topic() {
    assert_eq!(SUBSCRIBE::from_bytes(&hex("82 02 00 01")).unwrap_err(), Error::MalformedRequest);
}

#[test]
fn subscribe_rejects_requested_qos_three() {
    assert_eq!(
        SUBSCRIBE::from_bytes(&hex("82 08 00 01 00 03 61 2f 62 03")).unwrap_err(),
        Error::MalformedRequest
    );
}

#[test]
fn unsubscribe_reads_its_topics() {
    let result = UNSUBSCRIBE::from_bytes(&hex("a2 0c 48 c9 00 03 61 2f 62 00 03 63 2f 64")).unwrap();
    assert_eq!(result.id, 18633);
    assert_eq!(result.topics, vec!["a/b".to_string(), "c/d".to_string()]);
    assert_eq!(UNSUBSCRIBE::from_bytes(&hex("a2 02 48 c9")).unwrap_err(), Error::MalformedRequest);
}

#[test]
fn bare_packets() {
    assert_eq!(PINGREQ::from_bytes(&hex("c0 00")).unwrap(), PINGREQ {});
    assert_eq!(DISCONNECT::from_bytes(&hex("e0 00")).unwrap(), DISCONNECT {});
    assert_eq!(PINGREQ::from_bytes(&hex("c0 01 00")).unwrap_err(), Error::MalformedRequest);
    assert_eq!(DISCONNECT::from_bytes(&hex("e0 00 00")).unwrap_err(), Error::MalformedRequest);
}

#[test]
fn request_dispatches_on_type() {
    assert!(matches!(Request::from_bytes(&hex("c0 00")), Ok(Request::PINGREQ(_))));
    assert!(matches!(Request::from_bytes(&hex("e0 00")), Ok(Request::DISCONNECT(_))));
    assert!(matches!(Request::from_bytes(&s1_connect()), Ok(Request::CONNECT(_))));
    assert_eq!(Request::from_bytes(&hex("20 02 00 00")).unwrap_err(), Error::MalformedRequest);
    assert_eq!(Request::from_bytes(&[]).unwrap_err(), Error::MalformedRequest);
}

#[test]
fn qos_from_bits_and_byte() {
    assert_eq!(Qos::from_bits(false, false), Ok(Qos::FireAndForget));
    assert_eq!(Qos::from_bits(false, true), Ok(Qos::AcknowledgedDeliver));
    assert_eq!(Qos::from_bits(true, false), Ok(Qos::AssuredDelivery));
    assert_eq!(Qos::from_bits(true, true), Err(Error::MalformedRequest));
    assert_eq!(Qos::from_byte(&2), Ok(Qos::AssuredDelivery));
    assert_eq!(Qos::from_byte(&3), Err(Error::MalformedRequest));
    assert_eq!(Qos::AssuredDelivery.value(), 2);
}

#[test]
fn qos_levels_are_ordered() {
    assert!(Qos::FireAndForget < Qos::AcknowledgedDeliver);
    assert!(Qos::AcknowledgedDeliver < Qos::AssuredDelivery);
}
