use stable_ftp::client::{auth_outcome, check_packet_size, plan_send, SendPlan};
use stable_ftp::db::{DbFile, UserAuth};
use stable_ftp::server::{plan_transfer, token_gate, version_gate, ActiveTransfers, Plan};
use stable_ftp::structs::{
    AuthResponse, FileDescription, FileDescriptionResponse, FilePart, FileStatus, FileStatusEnum,
    Version,
};
use stable_ftp::codec::{encode_file_part, file_part_len};
use stable_ftp::transfer::{packet_range, part_written, receive_into, receive_part, write_into};
use stable_ftp::{num_packets, DEFAULT_PACKET_SIZE, MIN_PACKET_SIZE};

/// What a receiver keeps between connections: the progress record and the
/// destination file's bytes.
struct Store {
    record: Option<DbFile>,
    file: Vec<u8>,
}

fn source(len: usize) -> Vec<u8> {
    (0..len).map(|i| (i * 31 % 251) as u8).collect()
}

fn describe(name: &str, size: u64, packet_size: u64) -> FileDescription {
    FileDescription { name: name.to_string(), size, packet_size }
}

/// Runs one connection: negotiates, then sends at most `limit` packets.
/// Returns the status the receiver reported and how many packets moved.
fn session(store: &mut Store, src: &[u8], packet_size: u64, limit: u64) -> (FileStatusEnum, u64) {
    let desc = describe("data.bin", src.len() as u64, packet_size);
    let plan = plan_transfer(&desc, store.record.clone());
    let status = match plan {
        Plan::Reject(m) => panic!("rejected: {m}"),
        Plan::Open { record, status, seek } => {
            store.record = Some(record);
            assert_eq!(seek, Some(status.request_packet * status.packet_size));
            status
        }
        Plan::Create(n) => {
            let (record, status) = n.record(1, 42, 0);
            if let Some(last) = n.last_byte() {
                store.file = vec![0; last as usize + 1];
            }
            store.record = Some(record);
            status
        }
    };
    let response = FileDescriptionResponse::Status(status);
    let (from, to, ps) = match plan_send(&desc, &response) {
        SendPlan::AlreadyComplete => return (status.status, 0),
        SendPlan::Send { from, to, packet_size } => (from, to, packet_size),
        SendPlan::Failed(m) => panic!("failed: {m}"),
    };
    let mut sent = 0;
    for i in from..to {
        if sent == limit {
            break;
        }
        let (start, len) = packet_range(ps, src.len() as u64, i);
        let part = FilePart {
            part_num: i,
            data: src[start as usize..(start + len) as usize].to_vec(),
        };
        let record = store.record.take().unwrap();
        let offset = receive_part(&record, &part).unwrap() as usize;
        store.file[offset..offset + part.data.len()].copy_from_slice(&part.data);
        let (record, ack) = part_written(record);
        store.record = Some(record);
        assert!(ack.success);
        sent += 1;
    }
    (status.status, sent)
}

#[test]
fn end_to_end_upload_resume_and_reupload() {
    let src = source(10_000_000);
    let ps = 1_000_000;
    assert!(ps >= MIN_PACKET_SIZE);
    assert_eq!(num_packets(ps, 10_000_000), 10);

    // first contact, interrupted after four packets
    let mut store = Store { record: None, file: Vec::new() };
    let (status, sent) = session(&mut store, &src, ps, 4);
    assert_eq!(status, FileStatusEnum::Nonexistent);
    assert_eq!(sent, 4);
    assert_eq!(store.record.as_ref().unwrap().current_packet(), 4);

    // reconnect: resumes at packet four
    let (status, sent) = session(&mut store, &src, ps, u64::MAX);
    assert_eq!(status, FileStatusEnum::Resumeable);
    assert_eq!(sent, 6);
    let rec = store.record.as_ref().unwrap();
    assert_eq!(rec.current_packet(), 10);
    assert_eq!(rec.total_packets, 10);
    assert_eq!(store.file, src);

    // an uninterrupted transfer leaves the same bytes
    let mut fresh = Store { record: None, file: Vec::new() };
    let (_, sent) = session(&mut fresh, &src, ps, u64::MAX);
    assert_eq!(sent, 10);
    assert_eq!(fresh.file, store.file);

    // upload again after completion: nothing moves
    let (status, sent) = session(&mut store, &src, ps, u64::MAX);
    assert_eq!(status, FileStatusEnum::Exists);
    assert_eq!(sent, 0);
}

#[test]
fn resume_point_reported_by_receiver() {
    let src = source(10_000_000);
    let mut store = Store { record: None, file: Vec::new() };
    session(&mut store, &src, 1_000_000, 4);
    let desc = describe("data.bin", 10_000_000, DEFAULT_PACKET_SIZE);
    match plan_transfer(&desc, store.record.clone()) {
        Plan::Open { status, seek, .. } => {
            assert_eq!(status.status, FileStatusEnum::Resumeable);
            assert_eq!(status.request_packet, 4);
            // the stored packet size wins over the one asked for
            assert_eq!(status.packet_size, 1_000_000);
            assert_eq!(status.total_packets, 10);
            assert_eq!(seek, Some(4_000_000));
        }
        other => panic!("unexpected {:?}", other),
    }
}

#[test]
fn resume_from_every_point_matches_uninterrupted() {
    let src = source(5 * 1_048_576 + 17);
    let mut whole = Store { record: None, file: Vec::new() };
    session(&mut whole, &src, MIN_PACKET_SIZE, u64::MAX);
    assert_eq!(whole.file, src);
    for k in 0..=6 {
        let mut store = Store { record: None, file: Vec::new() };
        session(&mut store, &src, MIN_PACKET_SIZE, k);
        session(&mut store, &src, MIN_PACKET_SIZE, u64::MAX);
        assert_eq!(store.file, whole.file);
        assert_eq!(store.record.as_ref().unwrap().current_packet(), 6);
    }
}

#[test]
fn redelivery_after_crash_is_idempotent() {
    let src = source(3 * 1_048_576);
    let mut store = Store { record: None, file: Vec::new() };
    session(&mut store, &src, MIN_PACKET_SIZE, 1);
    let record = store.record.clone().unwrap();
    let (start, len) = packet_range(MIN_PACKET_SIZE, src.len() as u64, 1);
    let part = FilePart { part_num: 1, data: src[start as usize..(start + len) as usize].to_vec() };

    // written, then the receiver stops before counting and acknowledging
    let offset = receive_part(&record, &part).unwrap() as usize;
    store.file[offset..offset + part.data.len()].copy_from_slice(&part.data);
    let crashed_file = store.file.clone();

    // the sender reconnects and sends the same part again
    let offset = receive_part(&record, &part).unwrap() as usize;
    store.file[offset..offset + part.data.len()].copy_from_slice(&part.data);
    let (after, ack) = part_written(record);
    assert!(ack.success);
    assert_eq!(store.file, crashed_file);
    assert_eq!(after.current_packet(), 2);
}

#[test]
fn out_of_sequence_part_is_rejected() {
    let rec = DbFile::new(3, "f".to_string(), 10, MIN_PACKET_SIZE, 1, 0);
    let ahead = FilePart { part_num: 1, data: vec![0; 10] };
    let err = receive_part(&rec, &ahead).unwrap_err();
    assert!(!err.success);
    assert_eq!(err.message, "Part Num: 1 != Expected Num: 0");
    let rec = part_written(rec).0;
    let behind = FilePart { part_num: 0, data: vec![0; 10] };
    let err = receive_part(&rec, &behind).unwrap_err();
    assert_eq!(err.message, "Part Num: 0 != Expected Num: 1");
    let ok = FilePart { part_num: 1, data: vec![0; 10] };
    assert_eq!(receive_part(&rec, &ok).unwrap(), MIN_PACKET_SIZE);
}

#[test]
fn oversized_part_is_rejected() {
    let rec = DbFile::new(3, "f".to_string(), 2, MIN_PACKET_SIZE, 1, 0);
    let big = FilePart { part_num: 0, data: vec![0; MIN_PACKET_SIZE as usize + 1] };
    let err = receive_part(&rec, &big).unwrap_err();
    assert!(!err.success);
    assert_eq!(err.message, "Packet too large (1000001 > 1000000)");
    let exact = FilePart { part_num: 0, data: vec![0; MIN_PACKET_SIZE as usize] };
    assert_eq!(receive_part(&rec, &exact).unwrap(), 0);
}

#[test]
fn part_after_completion_is_rejected() {
    let rec = part_written(DbFile::new(3, "f".to_string(), 1, MIN_PACKET_SIZE, 1, 0)).0;
    let extra = FilePart { part_num: 1, data: vec![1] };
    let err = receive_part(&rec, &extra).unwrap_err();
    assert_eq!(err.message, "No part expected after the last one");
}

#[test]
fn small_packet_size_is_rejected() {
    let desc = describe("f", 10_000_000, 999_999);
    match plan_transfer(&desc, None) {
        Plan::Reject(m) => {
            assert_eq!(m, "Invalid Packet Size: Packet Size (999999) must be >= 1000000")
        }
        other => panic!("unexpected {:?}", other),
    }
    let existing = DbFile::new(3, "f".to_string(), 10, MIN_PACKET_SIZE, 1, 0);
    assert!(matches!(
        plan_transfer(&describe("f", 10_000_000, MIN_PACKET_SIZE - 1), Some(existing)),
        Plan::Reject(_)
    ));
    assert!(matches!(plan_transfer(&describe("f", 0, 0), None), Plan::Reject(_)));
    assert_eq!(
        check_packet_size(999_999).unwrap_err(),
        "packet size (999999) must be >= 1000000"
    );
    assert!(check_packet_size(1_000_000).is_ok());
    assert!(check_packet_size(MIN_PACKET_SIZE).is_ok());
}

#[test]
fn new_transfer_is_planned_from_request() {
    match plan_transfer(&describe("new.bin", 10_000_000, MIN_PACKET_SIZE), None) {
        Plan::Create(n) => {
            assert_eq!(n.filename, "new.bin");
            assert_eq!(n.total_packets, 10);
            assert_eq!(n.packet_size, MIN_PACKET_SIZE);
            assert_eq!(n.last_byte(), Some(9_999_999));
            let (rec, status) = n.record(5, 6, 7);
            assert_eq!(rec.current_packet(), 0);
            assert_eq!(rec.inserted_by_id, 6);
            assert_eq!(status.id, 5);
            assert_eq!(status.status, FileStatusEnum::Nonexistent);
            assert_eq!(status.request_packet, 0);
            assert_eq!(status.total_packets, 10);
        }
        other => panic!("unexpected {:?}", other),
    }
    match plan_transfer(&describe("empty", 0, MIN_PACKET_SIZE), None) {
        Plan::Create(n) => {
            assert_eq!(n.total_packets, 0);
            assert_eq!(n.last_byte(), None);
        }
        other => panic!("unexpected {:?}", other),
    }
}

#[test]
fn completed_record_reports_exists() {
    let mut rec = DbFile::new(8, "done".to_string(), 2, MIN_PACKET_SIZE, 1, 0);
    rec = rec.inc_current_packet().inc_current_packet();
    match plan_transfer(&describe("done", 2 * MIN_PACKET_SIZE, MIN_PACKET_SIZE), Some(rec)) {
        Plan::Open { status, seek, .. } => {
            assert_eq!(status.status, FileStatusEnum::Exists);
            assert_eq!(status.get_status(), FileStatusEnum::Exists);
            assert_eq!(status.request_packet, 2);
            assert_eq!(seek, Some(2 * MIN_PACKET_SIZE));
        }
        other => panic!("unexpected {:?}", other),
    }
}

#[test]
fn handshake_gates() {
    let server = Version { major: 1, minor: 1, patch: 0 };
    assert!(version_gate(&server, &Version { major: 1, minor: 0, patch: 9 }).is_none());
    let refusal = version_gate(&server, &Version { major: 1, minor: 2, patch: 0 }).unwrap();
    assert!(!refusal.success);
    assert_eq!(
        refusal.failure_reason,
        "Failed to authenticate: Client version (1.2.0) is not compatible with server version (1.1.0)"
    );
    let user = UserAuth { id: 9, token: "SECRET-REDACTED".to_string(), notes: None, created_date: 0 };
    let (resp, owner) = token_gate(Some(&user));
    assert!(resp.success);
    assert_eq!(owner, Some(9));
    let (resp, owner) = token_gate(None);
    assert!(!resp.success);
    assert_eq!(resp.failure_reason, "Invalid Token/Token Not Found");
    assert_eq!(owner, None);
}

#[test]
fn sender_reads_handshake_and_plan() {
    assert!(auth_outcome(&AuthResponse { success: true, failure_reason: String::new() }).is_ok());
    let bad = AuthResponse { success: false, failure_reason: "Invalid Token/Token Not Found".to_string() };
    assert_eq!(auth_outcome(&bad).unwrap_err(), "Authentication failure: Invalid Token/Token Not Found");
    let desc = describe("f", 10, DEFAULT_PACKET_SIZE);
    let fail = FileDescriptionResponse::FailMessage("no".to_string());
    assert_eq!(plan_send(&desc, &fail), SendPlan::Failed("no".to_string()));
}

#[test]
fn packet_ranges_cover_the_file() {
    assert_eq!(packet_range(4, 10, 0), (0, 4));
    assert_eq!(packet_range(4, 10, 1), (4, 4));
    assert_eq!(packet_range(4, 10, 2), (8, 2));
    assert_eq!(packet_range(MIN_PACKET_SIZE, 10_000_000, 9), (9 * MIN_PACKET_SIZE, 10_000_000 - 9 * MIN_PACKET_SIZE));
}

#[test]
fn record_validity_check() {
    let rec = DbFile::new(1, "f".to_string(), 3, 10, 1, 0);
    assert!(rec.is_valid());
    let mut broken = rec.clone();
    broken.current_packet = 4;
    assert!(!broken.is_valid());
    let mut zero = rec.clone();
    zero.packet_size = 0;
    assert!(!zero.is_valid());
    let mut huge = rec;
    huge.total_packets = u64::MAX;
    assert!(!huge.is_valid());
    let desc = FileDescription { name: "x".to_string(), size: 1, packet_size: 1 }.with_packet_size(DEFAULT_PACKET_SIZE);
    assert_eq!(desc.packet_size, DEFAULT_PACKET_SIZE);
    assert_eq!(desc.name, "x");
}

#[test]
fn one_session_per_file_name() {
    let mut active = ActiveTransfers::new();
    assert!(active.try_claim("a.bin"));
    assert!(active.try_claim("b.bin"));
    assert!(!active.try_claim("a.bin"));
    active.release("a.bin");
    assert!(active.try_claim("a.bin"));
    assert!(!active.try_claim("b.bin"));
    active.release("b.bin");
    active.release("b.bin");
    assert!(active.try_claim("b.bin"));
}

#[test]
fn sender_refuses_inconsistent_status() {
    let desc = describe("f", 10 * MIN_PACKET_SIZE, MIN_PACKET_SIZE);
    let status = FileStatus {
        id: 1,
        status: FileStatusEnum::Resumeable,
        request_packet: 11,
        packet_size: MIN_PACKET_SIZE,
        total_packets: 11,
    };
    match plan_send(&desc, &FileDescriptionResponse::Status(status)) {
        SendPlan::Failed(m) => assert_eq!(m, "The receiver asks for packet 11 of only 10"),
        other => panic!("unexpected {:?}", other),
    }
    let no_size = FileStatus { packet_size: 0, request_packet: 0, ..status };
    assert_eq!(
        plan_send(&desc, &FileDescriptionResponse::Status(no_size)),
        SendPlan::Failed("The receiver reported no packet size".to_string())
    );
    let resumable = FileStatus { request_packet: 10, ..status };
    assert_eq!(
        plan_send(&desc, &FileDescriptionResponse::Status(resumable)),
        SendPlan::Send { from: 10, to: 10, packet_size: MIN_PACKET_SIZE }
    );
    let exists = FileStatus { status: FileStatusEnum::Exists, request_packet: 10, ..status };
    assert_eq!(plan_send(&desc, &FileDescriptionResponse::Status(exists)), SendPlan::AlreadyComplete);
}

fn parts_of(src: &[u8], ps: u64, from: u64, to: u64) -> Vec<FilePart> {
    (from..to)
        .map(|i| {
            let (start, len) = packet_range(ps, src.len() as u64, i);
            FilePart { part_num: i, data: src[start as usize..(start + len) as usize].to_vec() }
        })
        .collect()
}

#[test]
fn pump_end_to_end_with_million_byte_packets() {
    let src = source(10_000_000);
    let ps = 1_000_000;
    let desc = describe("movie.bin", 10_000_000, ps);

    // first contact
    let transfer = match plan_transfer(&desc, None) {
        Plan::Create(n) => n,
        other => panic!("unexpected {:?}", other),
    };
    let (record, status) = transfer.record(1, 2, 0);
    assert_eq!(status.status, FileStatusEnum::Nonexistent);
    assert_eq!(status.total_packets, 10);
    let mut file = vec![0u8; transfer.size as usize];

    // four packets, then the link drops
    let (record, acks) = receive_into(record, &mut file, &parts_of(&src, ps, 0, 4));
    assert_eq!(acks.len(), 4);
    assert!(acks.iter().all(|a| a.success));
    assert_eq!(record.current_packet(), 4);

    // reconnect
    let (record, status, seek) = match plan_transfer(&desc, Some(record)) {
        Plan::Open { record, status, seek } => (record, status, seek),
        other => panic!("unexpected {:?}", other),
    };
    assert_eq!(status.status, FileStatusEnum::Resumeable);
    assert_eq!(status.request_packet, 4);
    assert_eq!(seek, Some(4_000_000));
    let (record, acks) = receive_into(record, &mut file, &parts_of(&src, ps, 4, 10));
    assert_eq!(acks.len(), 6);
    assert_eq!(record.current_packet(), 10);
    assert_eq!(record.total_packets, 10);
    assert_eq!(file, src);

    // the same as one uninterrupted session
    let fresh = match plan_transfer(&desc, None) {
        Plan::Create(n) => n.record(1, 2, 0).0,
        other => panic!("unexpected {:?}", other),
    };
    let mut whole = vec![0u8; 10_000_000];
    let (fresh, acks) = receive_into(fresh, &mut whole, &parts_of(&src, ps, 0, 10));
    assert_eq!(acks.len(), 10);
    assert_eq!(fresh.current_packet(), 10);
    assert_eq!(whole, file);

    // re-upload after completion
    match plan_transfer(&desc, Some(record)) {
        Plan::Open { status, seek, .. } => {
            assert_eq!(status.status, FileStatusEnum::Exists);
            assert_eq!(status.request_packet, 10);
            assert_eq!(seek, Some(10_000_000));
        }
        other => panic!("unexpected {:?}", other),
    }
    assert_eq!(plan_send(&desc, &FileDescriptionResponse::Status(FileStatus {
        status: FileStatusEnum::Exists,
        request_packet: 10,
        ..status
    })), SendPlan::AlreadyComplete);
}

#[test]
fn pump_stops_at_first_refusal() {
    let src = source(3_000_000);
    let rec = DbFile::new(1, "f".to_string(), 3, 1_000_000, 1, 0);
    let mut file = vec![0u8; 3_000_000];
    let mut parts = parts_of(&src, 1_000_000, 0, 3);
    parts.swap(1, 2);
    let (rec, responses) = receive_into(rec, &mut file, &parts);
    assert_eq!(responses.len(), 2);
    assert!(responses[0].success);
    assert!(!responses[1].success);
    assert_eq!(responses[1].message, "Part Num: 2 != Expected Num: 1");
    assert_eq!(rec.current_packet(), 1);
    assert_eq!(&file[..1_000_000], &src[..1_000_000]);
    assert!(file[1_000_000..].iter().all(|b| *b == 0));
}

#[test]
fn positional_write_into_memory() {
    let mut f = vec![1u8, 2, 3];
    write_into(&mut f, 1, &[9, 9]);
    assert_eq!(f, vec![1, 9, 9]);
    write_into(&mut f, 2, &[7, 7]);
    assert_eq!(f, vec![1, 9, 7, 7]);
    write_into(&mut f, 6, &[5]);
    assert_eq!(f, vec![1, 9, 7, 7, 0, 0, 5]);
    write_into(&mut f, 0, &[]);
    assert_eq!(f, vec![1, 9, 7, 7, 0, 0, 5]);
}

#[test]
fn encoded_part_length_bound() {
    assert_eq!(file_part_len(1_000_000), Some(1_000_016));
    assert_eq!(file_part_len(u64::MAX - 16), Some(u64::MAX));
    assert_eq!(file_part_len(u64::MAX - 15), None);
    let part = FilePart { part_num: 3, data: vec![1; 1000] };
    assert_eq!(encode_file_part(&part).len() as u64, file_part_len(1000).unwrap());
}
