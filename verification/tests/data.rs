use file_transfer::common::counter::get_counter;
use file_transfer::common::counter::get_inc;
use file_transfer::common::hash::hash_bytes_sha256;
use file_transfer::common::transfer_state::TransferRegistry;
use file_transfer::common::transfer_state::TransferState;
use file_transfer::common::transfer_state::TransferType;
use file_transfer::networking::data::accept_reply;
use file_transfer::networking::data::decode_header;
use file_transfer::networking::data::encode_header;
use file_transfer::networking::data::read_decision;
use file_transfer::networking::data::reject_reply;
use file_transfer::networking::data::DataHeader;
use file_transfer::networking::data::ReceiveAction;
use file_transfer::networking::data::ReceiveSession;
use file_transfer::networking::data::ReceiverPhase;
use file_transfer::networking::data::SendAction;
use file_transfer::networking::data::SendEvent;
use file_transfer::networking::data::SendSession;
use file_transfer::networking::data::SenderPhase;
use file_transfer::networking::data::CHUNK_SIZE;
use file_transfer::networking::data::CONNECT_RETRY_MS;
use file_transfer::networking::data::DATA_PORT;
use file_transfer::networking::data::HEADER_SIZE;
use file_transfer::networking::data::LEDGER_POLL_MS;
use file_transfer::networking::data::MAX_ITERATIONS;
use file_transfer::networking::data::NAME_FIELD_SIZE;
use file_transfer::networking::ledger::Ledger;
use file_transfer::networking::peers::PeerAddr;

fn sender() -> PeerAddr {
    PeerAddr::new(b"10.0.0.1".to_vec(), 51234)
}

fn digest_of(data: &[u8]) -> [u8; 32] {
    hash_bytes_sha256(data)
}

fn receiving(name: &[u8], transferred: u64, size: u64, ttype: TransferType) -> TransferState {
    TransferState {
        ttype,
        original_filepath: Vec::new(),
        dest_filepath: name.to_vec(),
        transferred,
        size,
        peer: sender(),
    }
}

/// A session that has taken the header of `data` under the name `name`.
fn taken(name: &[u8], data: &[u8], ledger: &mut Ledger, status: &mut TransferRegistry) -> ReceiveSession {
    let mut counter = get_counter();
    ledger.promise(b"10.0.0.1", name.to_vec());
    let mut session = ReceiveSession::new(sender());
    assert_eq!(session.look(ledger, &mut counter), ReceiveAction::ReadHeader);
    let header = encode_header(name, data.len() as u64, &digest_of(data));
    assert_eq!(session.on_header(ledger, status, &header), ReceiveAction::Accept);
    session
}

#[test]
fn the_constants_of_the_data_channel() {
    assert_eq!(DATA_PORT, 24935);
    assert_eq!(CHUNK_SIZE, 64 * 1024);
    assert_eq!(NAME_FIELD_SIZE, 256);
    assert_eq!(HEADER_SIZE, 256 + 8 + 32);
    assert_eq!(MAX_ITERATIONS, 50);
    assert_eq!(LEDGER_POLL_MS, 100);
    assert_eq!(CONNECT_RETRY_MS, 100);
    assert_eq!(MAX_ITERATIONS as u64 * LEDGER_POLL_MS, 5000);
}

#[test]
fn the_header_is_name_size_and_digest() {
    let digest = digest_of(b"hello");
    let header = encode_header(b"doc.pdf", 0x0102030405060708, &digest);
    assert_eq!(header.len(), 296);
    assert_eq!(&header[..7], b"doc.pdf");
    assert!(header[7..256].iter().all(|b| *b == 0));
    assert_eq!(&header[256..264], &[8, 7, 6, 5, 4, 3, 2, 1]);
    assert_eq!(&header[264..], &digest);
}

#[test]
fn the_size_is_written_least_significant_byte_first() {
    let digest = [0u8; 32];
    assert_eq!(&encode_header(b"a", 1000, &digest)[256..264], &1000u64.to_le_bytes());
    assert_eq!(&encode_header(b"a", 0, &digest)[256..264], &[0u8; 8]);
    assert_eq!(&encode_header(b"a", u64::MAX, &digest)[256..264], &[255u8; 8]);
    assert_eq!(&encode_header(b"a", 1 << 56, &digest)[256..264], &[0, 0, 0, 0, 0, 0, 0, 1]);
}

#[test]
fn a_header_is_read_back() {
    let digest = digest_of(b"hello");
    let header = encode_header(b"my notes.txt", 238974619, &digest);
    assert_eq!(
        decode_header(&header),
        Some(DataHeader { name: b"my notes.txt".to_vec(), size: 238974619, digest: digest.to_vec() })
    );
    let empty = encode_header(b"", u64::MAX, &digest);
    assert_eq!(
        decode_header(&empty),
        Some(DataHeader { name: Vec::new(), size: u64::MAX, digest: digest.to_vec() })
    );
}

#[test]
fn a_name_longer_than_its_field_is_cut() {
    let long: Vec<u8> = (0..300u32).map(|i| b'a' + (i % 26) as u8).collect();
    let header = encode_header(&long, 1, &[7u8; 32]);
    assert_eq!(header.len(), 296);
    assert_eq!(&header[..256], &long[..256]);
    assert_eq!(decode_header(&header).unwrap().name, long[..256].to_vec());
    let exact = &long[..256];
    assert_eq!(decode_header(&encode_header(exact, 1, &[7u8; 32])).unwrap().name, exact.to_vec());
}

#[test]
fn nul_bytes_at_the_end_of_a_name_are_lost() {
    let header = encode_header(b"a\0b\0\0", 1, &[7u8; 32]);
    assert_eq!(decode_header(&header).unwrap().name, b"a\0b".to_vec());
    let nuls = encode_header(b"\0\0", 1, &[7u8; 32]);
    assert_eq!(decode_header(&nuls).unwrap().name, Vec::<u8>::new());
}

#[test]
fn too_few_bytes_are_no_header() {
    let header = encode_header(b"doc.pdf", 1000, &[7u8; 32]);
    assert_eq!(decode_header(&header[..295]), None);
    assert_eq!(decode_header(b""), None);
    let mut more = header.clone();
    more.extend_from_slice(b"the first bytes of the file");
    assert_eq!(decode_header(&more), decode_header(&header));
}

#[test]
fn the_lines_of_the_receiver() {
    assert_eq!(accept_reply(), b"ACCEPT\n".to_vec());
    assert_eq!(reject_reply(), b"REJECT\n".to_vec());
}

#[test]
fn the_sender_goes_on_only_after_an_acceptance() {
    assert_eq!(read_decision(b"ACCEPT\n"), SendEvent::Decision { accepted: true });
    assert_eq!(read_decision(b"ACCEPT"), SendEvent::Decision { accepted: true });
    assert_eq!(read_decision(b"REJECT\n"), SendEvent::Decision { accepted: false });
    assert_eq!(read_decision(b""), SendEvent::Decision { accepted: false });
    assert_eq!(read_decision(b"accept\n"), SendEvent::Decision { accepted: false });
}

#[test]
fn a_connection_without_a_promise_is_dropped_after_fifty_looks() {
    let ledger = Ledger::new();
    let mut counter = get_counter();
    let mut session = ReceiveSession::new(sender());
    for _ in 0..50 {
        assert_eq!(session.phase(), ReceiverPhase::WaitingLedgerMatch);
        assert_eq!(session.look(&ledger, &mut counter), ReceiveAction::Sleep);
    }
    assert_eq!(session.phase(), ReceiverPhase::WaitingLedgerMatch);
    assert_eq!(session.look(&ledger, &mut counter), ReceiveAction::Drop);
    assert_eq!(session.phase(), ReceiverPhase::Dropped);
    assert_eq!(session.look(&ledger, &mut counter), ReceiveAction::Ignore);
    assert_eq!(session.phase(), ReceiverPhase::Dropped);
    assert_eq!(get_inc(&mut counter), 0);
}

#[test]
fn a_promise_to_another_peer_does_not_help() {
    let mut ledger = Ledger::new();
    ledger.promise(b"10.0.0.9", b"doc.pdf".to_vec());
    let mut counter = get_counter();
    let mut session = ReceiveSession::new(sender());
    for _ in 0..50 {
        assert_eq!(session.look(&ledger, &mut counter), ReceiveAction::Sleep);
    }
    assert_eq!(session.look(&ledger, &mut counter), ReceiveAction::Drop);
}

#[test]
fn a_redeemed_promise_does_not_help() {
    let mut ledger = Ledger::new();
    ledger.promise(b"10.0.0.1", b"doc.pdf".to_vec());
    ledger.redeem(b"10.0.0.1", &b"doc.pdf".to_vec());
    let mut counter = get_counter();
    let mut session = ReceiveSession::new(sender());
    assert_eq!(session.look(&ledger, &mut counter), ReceiveAction::Sleep);
}

#[test]
fn a_promise_that_comes_in_time_lets_the_connection_in() {
    let mut ledger = Ledger::new();
    let mut counter = get_counter();
    get_inc(&mut counter);
    let mut session = ReceiveSession::new(sender());
    for _ in 0..49 {
        assert_eq!(session.look(&ledger, &mut counter), ReceiveAction::Sleep);
    }
    ledger.promise(b"10.0.0.1", b"doc.pdf".to_vec());
    assert_eq!(session.look(&ledger, &mut counter), ReceiveAction::ReadHeader);
    assert_eq!(session.phase(), ReceiverPhase::HeaderRead);
    assert_eq!(session.key(), 1);
    assert_eq!(get_inc(&mut counter), 2);
}

#[test]
fn a_promise_that_comes_too_late_does_not() {
    let mut ledger = Ledger::new();
    let mut counter = get_counter();
    let mut session = ReceiveSession::new(sender());
    for _ in 0..50 {
        assert_eq!(session.look(&ledger, &mut counter), ReceiveAction::Sleep);
    }
    ledger.promise(b"10.0.0.1", b"doc.pdf".to_vec());
    assert_eq!(session.look(&ledger, &mut counter), ReceiveAction::Drop);
    assert_eq!(ledger.count(b"10.0.0.1", &b"doc.pdf".to_vec()), 1);
}

#[test]
fn a_file_that_was_not_promised_is_refused() {
    let mut ledger = Ledger::new();
    let mut status = TransferRegistry::new();
    let mut counter = get_counter();
    ledger.promise(b"10.0.0.1", b"doc.pdf".to_vec());
    let mut session = ReceiveSession::new(sender());
    assert_eq!(session.look(&ledger, &mut counter), ReceiveAction::ReadHeader);
    let header = encode_header(b"other.pdf", 5, &digest_of(b"hello"));
    assert_eq!(session.on_header(&ledger, &mut status, &header), ReceiveAction::Reject);
    assert_eq!(session.phase(), ReceiverPhase::Rejected);
    assert_eq!(status.keys_in_order(), Vec::<u32>::new());
    assert_eq!(ledger.count(b"10.0.0.1", &b"doc.pdf".to_vec()), 1);
    assert_eq!(session.on_chunk(&mut status, 5), ReceiveAction::Ignore);
    assert_eq!(session.on_closed(&mut status), ReceiveAction::Ignore);
    assert_eq!(session.on_digest(&mut ledger, &mut status, &digest_of(b"hello")), ReceiveAction::Ignore);
    assert_eq!(ledger.count(b"10.0.0.1", &b"doc.pdf".to_vec()), 1);
}

#[test]
fn a_header_cut_short_ends_the_connection() {
    let mut ledger = Ledger::new();
    let mut status = TransferRegistry::new();
    let mut counter = get_counter();
    ledger.promise(b"10.0.0.1", b"doc.pdf".to_vec());
    let mut session = ReceiveSession::new(sender());
    session.look(&ledger, &mut counter);
    let header = encode_header(b"doc.pdf", 5, &digest_of(b"hello"));
    assert_eq!(session.on_header(&ledger, &mut status, &header[..100]), ReceiveAction::Drop);
    assert_eq!(session.phase(), ReceiverPhase::Dropped);
    assert_eq!(ledger.count(b"10.0.0.1", &b"doc.pdf".to_vec()), 1);
}

#[test]
fn a_header_is_not_taken_before_the_ledger_was_looked_into() {
    let mut ledger = Ledger::new();
    let mut status = TransferRegistry::new();
    ledger.promise(b"10.0.0.1", b"doc.pdf".to_vec());
    let mut session = ReceiveSession::new(sender());
    let header = encode_header(b"doc.pdf", 5, &digest_of(b"hello"));
    assert_eq!(session.on_header(&ledger, &mut status, &header), ReceiveAction::Ignore);
    assert_eq!(session.phase(), ReceiverPhase::WaitingLedgerMatch);
    assert_eq!(status.keys_in_order(), Vec::<u32>::new());
}

#[test]
fn a_promised_file_is_taken_and_recorded() {
    let mut ledger = Ledger::new();
    let mut status = TransferRegistry::new();
    let session = taken(b"doc.pdf", b"hello", &mut ledger, &mut status);
    assert_eq!(session.phase(), ReceiverPhase::Receiving);
    assert_eq!(session.name(), b"doc.pdf".to_vec());
    assert_eq!(session.received(), 0);
    assert_eq!(status.get(session.key()), Some(receiving(b"doc.pdf", 0, 5, TransferType::Receiving)));
    assert_eq!(ledger.count(b"10.0.0.1", &b"doc.pdf".to_vec()), 1);
}

#[test]
fn every_chunk_shows_in_the_record() {
    let data = vec![3u8; 1000];
    let mut ledger = Ledger::new();
    let mut status = TransferRegistry::new();
    let mut session = taken(b"doc.pdf", &data, &mut ledger, &mut status);
    assert_eq!(session.on_chunk(&mut status, 100), ReceiveAction::Continue);
    assert_eq!(session.received(), 100);
    assert_eq!(status.get(session.key()).unwrap().percentage(), 10);
    assert_eq!(session.on_chunk(&mut status, 650), ReceiveAction::Continue);
    assert_eq!(status.get(session.key()).unwrap().percentage(), 75);
    assert_eq!(session.on_chunk(&mut status, 250), ReceiveAction::Continue);
    assert_eq!(status.get(session.key()), Some(receiving(b"doc.pdf", 1000, 1000, TransferType::Receiving)));
    assert_eq!(status.get(session.key()).unwrap().percentage(), 100);
}

#[test]
fn the_count_of_bytes_stops_at_the_largest_number() {
    let mut ledger = Ledger::new();
    let mut status = TransferRegistry::new();
    let mut session = taken(b"doc.pdf", b"hello", &mut ledger, &mut status);
    for _ in 0..3 {
        session.on_chunk(&mut status, usize::MAX);
    }
    assert_eq!(session.received(), u64::MAX);
    assert_eq!(status.get(session.key()).unwrap().transferred, u64::MAX);
}

#[test]
fn a_file_that_arrives_as_it_was_sent_is_complete() {
    let data = b"hello world".to_vec();
    let mut ledger = Ledger::new();
    let mut status = TransferRegistry::new();
    let mut session = taken(b"doc.pdf", &data, &mut ledger, &mut status);
    session.on_chunk(&mut status, data.len());
    assert_eq!(session.on_closed(&mut status), ReceiveAction::Verify);
    assert_eq!(session.phase(), ReceiverPhase::Verifying);
    assert_eq!(status.get(session.key()).unwrap().ttype, TransferType::VerifyingHash);
    assert_eq!(ledger.count(b"10.0.0.1", &b"doc.pdf".to_vec()), 1);
    assert_eq!(session.on_digest(&mut ledger, &mut status, &digest_of(&data)), ReceiveAction::Finished);
    assert_eq!(session.phase(), ReceiverPhase::Completed);
    assert_eq!(
        status.get(session.key()),
        Some(receiving(b"doc.pdf", 11, 11, TransferType::CompletelyReceived))
    );
    assert_eq!(status.get(session.key()).unwrap().percentage(), 100);
    assert_eq!(ledger.count(b"10.0.0.1", &b"doc.pdf".to_vec()), 0);
}

#[test]
fn a_file_that_was_cut_short_is_corrupt_and_its_promise_is_redeemed() {
    let data = vec![9u8; 1000];
    let mut ledger = Ledger::new();
    let mut status = TransferRegistry::new();
    let mut session = taken(b"doc.pdf", &data, &mut ledger, &mut status);
    session.on_chunk(&mut status, 100);
    assert_eq!(session.on_closed(&mut status), ReceiveAction::Verify);
    assert_eq!(session.on_digest(&mut ledger, &mut status, &digest_of(&data[..100])), ReceiveAction::Finished);
    assert_eq!(session.phase(), ReceiverPhase::Corrupt);
    assert_eq!(status.get(session.key()), Some(receiving(b"doc.pdf", 100, 1000, TransferType::Error)));
    assert_eq!(status.get(session.key()).unwrap().percentage(), 10);
    assert_eq!(ledger.count(b"10.0.0.1", &b"doc.pdf".to_vec()), 0);
}

#[test]
fn a_file_that_was_altered_is_corrupt_and_its_promise_is_redeemed() {
    let data = vec![9u8; 1000];
    let mut altered = data.clone();
    altered[100] = 10;
    let mut ledger = Ledger::new();
    let mut status = TransferRegistry::new();
    ledger.promise(b"10.0.0.1", b"doc.pdf".to_vec());
    let mut session = taken(b"doc.pdf", &data, &mut ledger, &mut status);
    session.on_chunk(&mut status, 1000);
    session.on_closed(&mut status);
    assert_eq!(session.on_digest(&mut ledger, &mut status, &digest_of(&altered)), ReceiveAction::Finished);
    assert_eq!(session.phase(), ReceiverPhase::Corrupt);
    assert_eq!(status.get(session.key()).unwrap().ttype, TransferType::Error);
    assert_eq!(ledger.count(b"10.0.0.1", &b"doc.pdf".to_vec()), 1);
}

#[test]
fn a_digest_of_the_wrong_length_is_a_wrong_digest() {
    let data = b"hello".to_vec();
    let mut ledger = Ledger::new();
    let mut status = TransferRegistry::new();
    let mut session = taken(b"doc.pdf", &data, &mut ledger, &mut status);
    session.on_closed(&mut status);
    session.on_digest(&mut ledger, &mut status, &digest_of(&data)[..31]);
    assert_eq!(session.phase(), ReceiverPhase::Corrupt);
}

#[test]
fn a_session_is_concluded_once() {
    let data = b"hello".to_vec();
    let mut ledger = Ledger::new();
    let mut status = TransferRegistry::new();
    ledger.promise(b"10.0.0.1", b"doc.pdf".to_vec());
    let mut session = taken(b"doc.pdf", &data, &mut ledger, &mut status);
    assert_eq!(session.on_digest(&mut ledger, &mut status, &digest_of(&data)), ReceiveAction::Ignore);
    assert_eq!(ledger.count(b"10.0.0.1", &b"doc.pdf".to_vec()), 2);
    session.on_closed(&mut status);
    assert_eq!(session.on_chunk(&mut status, 5), ReceiveAction::Ignore);
    assert_eq!(session.on_closed(&mut status), ReceiveAction::Ignore);
    assert_eq!(session.on_digest(&mut ledger, &mut status, &digest_of(&data)), ReceiveAction::Finished);
    assert_eq!(session.on_digest(&mut ledger, &mut status, &digest_of(&data)), ReceiveAction::Ignore);
    assert_eq!(ledger.count(b"10.0.0.1", &b"doc.pdf".to_vec()), 1);
    assert_eq!(session.phase(), ReceiverPhase::Completed);
}

#[test]
fn the_sender_walks_through_its_phases() {
    let mut status = TransferRegistry::new();
    status.insert(4, TransferState { size: 1000, ..TransferState::default() });
    let mut session = SendSession::new(4);
    assert_eq!(session, SendSession { phase: SenderPhase::Connecting, key: 4, sent: 0, size: 0 });
    assert_eq!(session.step(&mut status, SendEvent::ConnectFailed), SendAction::Retry);
    assert_eq!(session.step(&mut status, SendEvent::ConnectFailed), SendAction::Retry);
    assert_eq!(session.phase, SenderPhase::Connecting);
    assert_eq!(session.step(&mut status, SendEvent::Connected { size: 1000 }), SendAction::WriteHeader);
    assert_eq!(session, SendSession { phase: SenderPhase::HeaderSent, key: 4, sent: 0, size: 1000 });
    assert_eq!(session.step(&mut status, SendEvent::HeaderWritten), SendAction::ReadDecision);
    assert_eq!(session.phase, SenderPhase::AwaitingDecision);
    assert_eq!(session.step(&mut status, read_decision(b"ACCEPT\n")), SendAction::Stream);
    assert_eq!(session.phase, SenderPhase::Streaming);
    assert_eq!(session.step(&mut status, SendEvent::ChunkSent { len: 400 }), SendAction::Stream);
    assert_eq!(status.get(4).unwrap().percentage(), 40);
    assert_eq!(session.step(&mut status, SendEvent::ChunkSent { len: 600 }), SendAction::Stream);
    assert_eq!(session, SendSession { phase: SenderPhase::Streaming, key: 4, sent: 1000, size: 1000 });
    assert_eq!(status.get(4).unwrap().percentage(), 100);
    assert_eq!(status.get(4).unwrap().ttype, TransferType::Sending);
    assert_eq!(session.step(&mut status, SendEvent::EndOfFile), SendAction::Finish);
    assert_eq!(session.phase, SenderPhase::Done);
    assert_eq!(status.get(4).unwrap().ttype, TransferType::Sending);
}

#[test]
fn a_sender_that_is_turned_away_gives_up() {
    let mut status = TransferRegistry::new();
    status.insert(4, TransferState { size: 1000, ..TransferState::default() });
    let mut session = SendSession::new(4);
    session.step(&mut status, SendEvent::Connected { size: 1000 });
    session.step(&mut status, SendEvent::HeaderWritten);
    assert_eq!(session.step(&mut status, read_decision(b"REJECT\n")), SendAction::Abort);
    assert_eq!(session.phase, SenderPhase::Aborted);
    assert_eq!(session.step(&mut status, SendEvent::ChunkSent { len: 400 }), SendAction::Ignore);
    assert_eq!(session.step(&mut status, SendEvent::EndOfFile), SendAction::Ignore);
    assert_eq!(session.phase, SenderPhase::Aborted);
    assert_eq!(status.get(4), Some(TransferState { size: 1000, ..TransferState::default() }));
}

#[test]
fn what_comes_at_the_wrong_moment_is_ignored() {
    let mut status = TransferRegistry::new();
    let mut session = SendSession::new(4);
    let events = [
        SendEvent::HeaderWritten,
        SendEvent::Decision { accepted: true },
        SendEvent::ChunkSent { len: 10 },
        SendEvent::EndOfFile,
    ];
    for event in events {
        assert_eq!(session.step(&mut status, event), SendAction::Ignore);
        assert_eq!(session, SendSession::new(4));
    }
    session.step(&mut status, SendEvent::Connected { size: 10 });
    assert_eq!(session.step(&mut status, SendEvent::ConnectFailed), SendAction::Ignore);
    assert_eq!(session.step(&mut status, SendEvent::Connected { size: 99 }), SendAction::Ignore);
    assert_eq!(session.size, 10);
    assert_eq!(status.keys_in_order(), Vec::<u32>::new());
}

#[test]
fn an_empty_file_is_sent_without_a_chunk() {
    let mut status = TransferRegistry::new();
    status.insert(0, TransferState::default());
    let mut session = SendSession::new(0);
    session.step(&mut status, SendEvent::Connected { size: 0 });
    session.step(&mut status, SendEvent::HeaderWritten);
    session.step(&mut status, SendEvent::Decision { accepted: true });
    assert_eq!(session.step(&mut status, SendEvent::EndOfFile), SendAction::Finish);
    assert_eq!(status.get(0).unwrap().percentage(), 0);
}
