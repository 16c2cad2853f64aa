use telesteller::response::{CONNACKReturnCode, Response, ResponseFrame, CONNACK, PINGRESP, SUBACK, UNSUBACK};
use telesteller::Qos;

fn hex(s: &str) -> Vec<u8> {
    s.split_whitespace().map(|b| u8::from_str_radix(b, 16).unwrap()).collect()
}

fn test_success(frame: impl ResponseFrame, expected: &[u8]) {
    let mut bytes = Vec::new();
    frame.to_bytes(&mut bytes);
    println!("frame - length: {}  bytes: {:?}", bytes.len(), bytes);
    assert_eq!(bytes, expected);
}

#[test]
fn test_CONNACK() {
    test_success(CONNACK { session_present: true, return_code: CONNACKReturnCode::Accepted }, &hex("20 02 01 00"));
}

#[test]
fn test_SUBACK() {
    test_success(SUBACK { id: 41235, granted_qos: vec![Some(Qos::FireAndForget)] }, &hex("90 03 a1 13 00"));
}

#[test]
fn test_UNSUBACK() {
    test_success(UNSUBACK { id: 18633 }, &hex("b0 02 48 c9"));
}

#[test]
fn test_PINGRESP() {
    test_success(PINGRESP {}, &hex("d0 00"));
}

#[test]
fn test_write_CONNACK_SUBACK() {
    let mut buffer = Vec::new();
    Response::CONNACK(CONNACK { session_present: true, return_code: CONNACKReturnCode::Accepted })
        .to_bytes(&mut buffer);
    Response::SUBACK(SUBACK {
        id: 41235,
        granted_qos: vec![Some(Qos::AcknowledgedDeliver), None, Some(Qos::FireAndForget), Some(Qos::AssuredDelivery)],
    })
    .to_bytes(&mut buffer);

    assert_eq!(buffer, hex("20 02 01 00 90 06 a1 13 01 80 00 02"));
}

#[test]
fn connack_refusal_codes() {
    test_success(
        CONNACK { session_present: false, return_code: CONNACKReturnCode::UnacceptableProtocol },
        &hex("20 02 00 01"),
    );
    test_success(
        CONNACK { session_present: false, return_code: CONNACKReturnCode::NotAuthorized },
        &hex("20 02 00 05"),
    );
    assert_eq!(CONNACKReturnCode::BadUsernameOrPassword.value(), 4);
}

#[test]
fn large_suback_takes_two_length_bytes() {
    let mut bytes = Vec::new();
    SUBACK { id: 1, granted_qos: vec![None; 200] }.to_bytes(&mut bytes);
    assert_eq!(&bytes[..5], &hex("90 ca 01 00 01")[..]);
    assert_eq!(bytes.len(), 3 + 202);
    assert!(bytes[5..].iter().all(|b| *b == 0x80));
}

#[test]
fn to_bytes_appends() {
    let mut bytes = vec![0xaa];
    PINGRESP {}.to_bytes(&mut bytes);
    assert_eq!(bytes, hex("aa d0 00"));
}
