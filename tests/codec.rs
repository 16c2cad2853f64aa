use telesteller::codec::decode;
use telesteller::request::{Error, Request};
use telesteller::wire::put_length;

fn hex(s: &str) -> Vec<u8> {
    s.split_whitespace().map(|b| u8::from_str_radix(b, 16).unwrap()).collect()
}

fn stream() -> Vec<u8> {
    hex("10 72 00 04 4d 51 54 54 04 36 01 2c 00 31 33 65
         32 36 63 34 36 35 2d 31 33 31 39 2d 34 65 34 32
         2d 38 35 33 35 2d 31 37 63 63 63 30 31 66 65 63
         39 39 31 36 31 31 37 36 32 30 31 39 35 35 38 00
         0e 2f 74 65 73 74 77 69 6c 6c 2f 77 69 6c 6c 00
         23 64 65 76 69 63 65 20 6e 6f 77 20 67 6f 20 75
         6e 67 72 61 63 65 66 75 6c 6c 79 20 6f 66 66 6c
         69 6e 65 2e
         82 13 a1 12 00 0e 2f 74 65 73 74 77 69 6c 6c 2f
         77 69 6c 6c 02
         30 0a 00 05 2f 61 62 63 64 31 32 33")
}

/// Feeds the pieces one after the other, decoding every whole frame as a
/// framed reader does.
fn feed(pieces: &[&[u8]]) -> (Vec<Result<Request, Error>>, Vec<u8>) {
    let mut buffer: Vec<u8> = Vec::new();
    let mut out = Vec::new();
    for piece in pieces {
        buffer.extend_from_slice(piece);
        loop {
            match decode(&buffer) {
                Ok(Some((request, n))) => {
                    out.push(Ok(request));
                    buffer.drain(..n);
                }
                Ok(None) => break,
                Err(e) => {
                    out.push(Err(e));
                    return (out, buffer);
                }
            }
        }
    }
    (out, buffer)
}

#[test]
fn test_read_CONNECT_SUBSCRIBE_PUBLISH() {
    let bytes = stream();
    let (requests, rest) = feed(&[&bytes]);
    for request in &requests {
        match request {
            Ok(request) => println!("{:?}", request),
            Err(e) => panic!("Err: {:?}", e),
        }
    }
    assert_eq!(requests.len(), 3);
    assert!(matches!(requests[0], Ok(Request::CONNECT(_))));
    assert!(matches!(requests[1], Ok(Request::SUBSCRIBE(_))));
    assert!(matches!(requests[2], Ok(Request::PUBLISH(_))));
    assert!(rest.is_empty());
}

#[test]
fn split_stream_reads_the_same() {
    let bytes = stream();
    let (whole, _) = feed(&[&bytes]);
    for cut in [1usize, 2, 3, 50, 115, 116, 117, 130, 137, bytes.len() - 1] {
        let (a, b) = bytes.split_at(cut);
        let (pieces, rest) = feed(&[a, b]);
        assert_eq!(pieces, whole, "cut at {}", cut);
        assert!(rest.is_empty());
    }
    let singles: Vec<&[u8]> = bytes.chunks(1).collect();
    let (pieces, _) = feed(&singles);
    assert_eq!(pieces, whole);
}

#[test]
fn incomplete_frames_wait() {
    assert!(matches!(decode(&[]), Ok(None)));
    assert!(matches!(decode(&hex("30")), Ok(None)));
    assert!(matches!(decode(&hex("30 0a 00 05")), Ok(None)));
    assert!(matches!(decode(&hex("30 80")), Ok(None)));
}

#[test]
fn decode_reports_frame_length() {
    let mut bytes = hex("c0 00");
    bytes.extend_from_slice(&hex("e0 00"));
    match decode(&bytes) {
        Ok(Some((Request::PINGREQ(_), n))) => assert_eq!(n, 2),
        other => panic!("{:?}", other),
    }
}

#[test]
fn remaining_length_past_four_bytes_is_too_large() {
    assert_eq!(decode(&hex("30 ff ff ff ff 01")).unwrap_err(), Error::FrameTooLarge);
    assert_eq!(decode(&hex("30 80 80 80 80")).unwrap_err(), Error::FrameTooLarge);
    // the largest value four bytes hold only waits for the rest of the frame
    assert!(matches!(decode(&hex("30 ff ff ff 7f 00")), Ok(None)));
}

#[test]
fn malformed_frame_is_an_error() {
    assert_eq!(decode(&hex("83 13 a1 12 00 0e 2f 74 65 73 74 77 69 6c 6c 2f 77 69 6c 6c 02")).unwrap_err(), Error::MalformedRequest);
    assert_eq!(decode(&hex("f0 00")).unwrap_err(), Error::MalformedRequest);
}

#[test]
fn put_length_encodings() {
    let cases: [(usize, &str); 6] = [
        (0, "00"),
        (127, "7f"),
        (128, "80 01"),
        (16383, "ff 7f"),
        (16384, "80 80 01"),
        (268435455, "ff ff ff 7f"),
    ];
    for (value, expected) in cases {
        let mut bytes = Vec::new();
        put_length(value, &mut bytes);
        assert_eq!(bytes, hex(expected), "{}", value);
    }
}
