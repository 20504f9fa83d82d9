use stable_ftp::codec::{
    decode_auth_request, decode_auth_response, decode_file_description,
    decode_file_description_response, decode_file_part, decode_file_part_response,
    encode_auth_request, encode_auth_response, encode_file_description,
    encode_file_description_response, encode_file_part, encode_file_part_response,
    MalformedMessage,
};
use stable_ftp::structs::{
    AuthRequest, AuthResponse, FileDescription, FileDescriptionResponse, FilePart,
    FilePartResponse, FileStatus, FileStatusEnum, Version,
};

fn sample_status() -> FileStatus {
    FileStatus {
        id: -7,
        status: FileStatusEnum::Resumeable,
        request_packet: 4,
        packet_size: 1_048_576,
        total_packets: 10,
    }
}

#[test]
fn auth_request_round_trip() {
    let m = AuthRequest {
        version: Version { major: 1, minor: 2, patch: 3 },
        token: "SECRET-REDACTED".to_string(),
    };
    let bytes = encode_auth_request(&m);
    assert_eq!(bytes.len(), 12 + 8 + m.token.len());
    let (back, end) = decode_auth_request(&bytes, 0).unwrap();
    assert_eq!(end, bytes.len());
    assert_eq!(back.version, m.version);
    assert_eq!(back.token, m.token);
}

#[test]
fn auth_response_round_trip() {
    let m = AuthResponse { success: false, failure_reason: "nope: ünïcödé".to_string() };
    let bytes = encode_auth_response(&m);
    let (back, end) = decode_auth_response(&bytes, 0).unwrap();
    assert_eq!(end, bytes.len());
    assert!(!back.success);
    assert_eq!(back.failure_reason, m.failure_reason);
}

#[test]
fn file_description_round_trip() {
    let m = FileDescription { name: "movie.mkv".to_string(), size: 10_000_000, packet_size: 1_048_576 };
    let bytes = encode_file_description(&m);
    let (back, end) = decode_file_description(&bytes, 0).unwrap();
    assert_eq!(end, bytes.len());
    assert_eq!(back.name, "movie.mkv");
    assert_eq!(back.size, 10_000_000);
    assert_eq!(back.packet_size, 1_048_576);
}

#[test]
fn file_description_response_round_trip() {
    let st = FileDescriptionResponse::Status(sample_status());
    let bytes = encode_file_description_response(&st);
    assert_eq!(bytes.len(), 1 + 29);
    match decode_file_description_response(&bytes, 0).unwrap() {
        (FileDescriptionResponse::Status(s), end) => {
            assert_eq!(s, sample_status());
            assert_eq!(end, 30);
        }
        other => panic!("unexpected {:?}", other),
    }
    let fail = FileDescriptionResponse::FailMessage("too small".to_string());
    let bytes = encode_file_description_response(&fail);
    match decode_file_description_response(&bytes, 0).unwrap() {
        (FileDescriptionResponse::FailMessage(m), end) => {
            assert_eq!(m, "too small");
            assert_eq!(end, bytes.len());
        }
        other => panic!("unexpected {:?}", other),
    }
}

#[test]
fn file_part_round_trip_and_layout() {
    let m = FilePart { part_num: 258, data: vec![9, 8, 7] };
    let bytes = encode_file_part(&m);
    assert_eq!(bytes, vec![2, 1, 0, 0, 0, 0, 0, 0, 3, 0, 0, 0, 0, 0, 0, 0, 9, 8, 7]);
    let (back, end) = decode_file_part(&bytes, 0).unwrap();
    assert_eq!(end, bytes.len());
    assert_eq!(back.part_num, 258);
    assert_eq!(back.data, vec![9, 8, 7]);
}

#[test]
fn file_part_response_round_trip() {
    let m = FilePartResponse { success: true, message: String::new() };
    let bytes = encode_file_part_response(&m);
    assert_eq!(bytes, vec![1, 0, 0, 0, 0, 0, 0, 0, 0]);
    let (back, end) = decode_file_part_response(&bytes, 0).unwrap();
    assert_eq!(end, 9);
    assert!(back.success);
    assert_eq!(back.message, "");
}

#[test]
fn decode_consumes_one_message_of_a_stream() {
    let a = FilePart { part_num: 0, data: vec![1; 5] };
    let b = FilePart { part_num: 1, data: vec![2; 3] };
    let mut stream = encode_file_part(&a);
    stream.extend(encode_file_part(&b));
    let (first, mid) = decode_file_part(&stream, 0).unwrap();
    assert_eq!(first.data, vec![1; 5]);
    assert_eq!(mid, 8 + 8 + 5);
    let (second, end) = decode_file_part(&stream, mid).unwrap();
    assert_eq!(second.part_num, 1);
    assert_eq!(second.data, vec![2; 3]);
    assert_eq!(end, stream.len());
}

#[test]
fn truncated_stream_is_malformed() {
    let m = FilePart { part_num: 3, data: vec![5; 10] };
    let bytes = encode_file_part(&m);
    for cut in 0..bytes.len() {
        assert_eq!(decode_file_part(&bytes[..cut], 0).unwrap_err(), MalformedMessage::Truncated);
    }
    let r = AuthRequest { version: Version { major: 0, minor: 1, patch: 0 }, token: "abc".to_string() };
    let bytes = encode_auth_request(&r);
    assert_eq!(
        decode_auth_request(&bytes[..bytes.len() - 1], 0).unwrap_err(),
        MalformedMessage::Truncated
    );
}

#[test]
fn unknown_discriminants_are_malformed() {
    let mut bytes = encode_file_description_response(&FileDescriptionResponse::Status(sample_status()));
    bytes[0] = 2;
    assert_eq!(
        decode_file_description_response(&bytes, 0).unwrap_err(),
        MalformedMessage::UnknownDiscriminant
    );
    let mut bytes = encode_file_description_response(&FileDescriptionResponse::Status(sample_status()));
    // status kind sits after the tag and the four-byte id
    bytes[5] = 3;
    assert_eq!(
        decode_file_description_response(&bytes, 0).unwrap_err(),
        MalformedMessage::UnknownDiscriminant
    );
    let mut bytes = encode_auth_response(&AuthResponse { success: true, failure_reason: String::new() });
    bytes[0] = 7;
    assert_eq!(decode_auth_response(&bytes, 0).unwrap_err(), MalformedMessage::UnknownDiscriminant);
}

#[test]
fn invalid_utf8_text_is_malformed() {
    let bytes = vec![1u8, 2, 0, 0, 0, 0, 0, 0, 0, 0xff, 0xfe];
    assert_eq!(decode_file_part_response(&bytes, 0).unwrap_err(), MalformedMessage::InvalidText);
}

#[test]
fn status_kinds_have_fixed_discriminants() {
    for (kind, byte) in [
        (FileStatusEnum::Exists, 0u8),
        (FileStatusEnum::Resumeable, 1u8),
        (FileStatusEnum::Nonexistent, 2u8),
    ] {
        let st = FileStatus { status: kind, ..sample_status() };
        let bytes = encode_file_description_response(&FileDescriptionResponse::Status(st));
        assert_eq!(bytes[5], byte);
        assert_eq!(&bytes[1..5], &(-7i32).to_le_bytes());
    }
}
