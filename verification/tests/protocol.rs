use wokwi_server::codec::checksum;
use wokwi_server::gdb::{ConnState, GdbAction, GdbConnection};
use wokwi_server::GdbInstruction;

fn frame(cmd: &[u8]) -> Vec<u8> {
    let mut f = vec![b'$'];
    f.extend_from_slice(cmd);
    f.push(b'#');
    let cs = checksum(cmd);
    f.extend_from_slice(&cs);
    f
}

#[test]
fn checksum_empty_is_00() {
    assert_eq!(checksum(b""), b"00".to_vec());
}

#[test]
fn checksum_wraps_modulo_256() {
    // 0xff + 0x68 = 0x167, reduced modulo 256 to 0x67.
    assert_eq!(checksum(&[0xff, 0x68]), b"67".to_vec());
}

#[test]
fn connect_writes_one_ack() {
    let (conn, acts) = GdbConnection::new();
    assert_eq!(acts, vec![GdbAction::WriteBytes(b"+".to_vec())]);
    assert_eq!(conn.state, ConnState::AwaitingFrame);
    assert!(conn.buffer.is_empty());
}

#[test]
fn valid_frame_is_acked_and_forwarded() {
    let (mut conn, _) = GdbConnection::new();
    let acts = conn.on_bytes(&frame(b"qSupported"));
    assert_eq!(
        acts,
        vec![
            GdbAction::WriteBytes(b"+".to_vec()),
            GdbAction::SendInstruction(GdbInstruction::Command(b"qSupported".to_vec())),
        ]
    );
    assert_eq!(conn.state, ConnState::AwaitingResponse);
    assert!(conn.buffer.is_empty());
}

#[test]
fn empty_command_frame_is_valid() {
    let (mut conn, _) = GdbConnection::new();
    let acts = conn.on_bytes(b"$#00");
    assert_eq!(
        acts,
        vec![
            GdbAction::WriteBytes(b"+".to_vec()),
            GdbAction::SendInstruction(GdbInstruction::Command(Vec::new())),
        ]
    );
}

#[test]
fn bad_checksum_is_nakked_and_dropped() {
    let (mut conn, _) = GdbConnection::new();
    let acts = conn.on_bytes(b"$qSupported#00");
    assert_eq!(acts, vec![GdbAction::WriteBytes(b"-".to_vec())]);
    assert_eq!(conn.state, ConnState::AwaitingFrame);
    assert!(conn.buffer.is_empty());
}

#[test]
fn retransmission_after_nak_succeeds() {
    let (mut conn, _) = GdbConnection::new();
    let acts = conn.on_bytes(b"$step#00");
    assert_eq!(acts, vec![GdbAction::WriteBytes(b"-".to_vec())]);
    let acts = conn.on_bytes(&frame(b"step"));
    assert_eq!(
        acts,
        vec![
            GdbAction::WriteBytes(b"+".to_vec()),
            GdbAction::SendInstruction(GdbInstruction::Command(b"step".to_vec())),
        ]
    );
}

#[test]
fn interrupt_alone_becomes_one_break() {
    let (mut conn, _) = GdbConnection::new();
    let acts = conn.on_bytes(&[0x03]);
    assert_eq!(
        acts,
        vec![GdbAction::SendInstruction(GdbInstruction::Break)]
    );
    assert_eq!(conn.state, ConnState::AwaitingFrame);
}

#[test]
fn interrupt_inside_garbage_becomes_one_break() {
    let (mut conn, _) = GdbConnection::new();
    let acts = conn.on_bytes(b"ab\x03cd");
    assert_eq!(
        acts,
        vec![GdbAction::SendInstruction(GdbInstruction::Break)]
    );
    assert!(conn.buffer.is_empty());
}

#[test]
fn interrupt_never_joins_a_command() {
    let (mut conn, _) = GdbConnection::new();
    // An interrupt byte dropped into the middle of a valid frame: it
    // is consumed on sight and the frame still carries "abc".
    let mut bytes = Vec::new();
    bytes.extend_from_slice(b"$ab\x03c#");
    bytes.extend_from_slice(&checksum(b"abc"));
    let acts = conn.on_bytes(&bytes);
    assert_eq!(
        acts,
        vec![
            GdbAction::SendInstruction(GdbInstruction::Break),
            GdbAction::WriteBytes(b"+".to_vec()),
            GdbAction::SendInstruction(GdbInstruction::Command(b"abc".to_vec())),
        ]
    );
}

#[test]
fn interrupt_during_outstanding_response_still_breaks() {
    let (mut conn, _) = GdbConnection::new();
    conn.on_bytes(&frame(b"c"));
    assert_eq!(conn.state, ConnState::AwaitingResponse);
    let acts = conn.on_bytes(&[0x03]);
    assert_eq!(
        acts,
        vec![GdbAction::SendInstruction(GdbInstruction::Break)]
    );
    assert_eq!(conn.state, ConnState::AwaitingResponse);
}

#[test]
fn response_bytes_pass_through_verbatim() {
    let (mut conn, _) = GdbConnection::new();
    conn.on_bytes(&frame(b"qSupported"));
    let acts = conn.on_response(b"PacketSize=3fff");
    assert_eq!(
        acts,
        vec![GdbAction::WriteBytes(b"PacketSize=3fff".to_vec())]
    );
    assert_eq!(conn.state, ConnState::AwaitingFrame);
}

#[test]
fn second_frame_waits_for_first_response() {
    let (mut conn, _) = GdbConnection::new();
    let mut both = frame(b"qSupported");
    both.extend_from_slice(&frame(b"vCont?"));
    let acts = conn.on_bytes(&both);
    // Only the first frame is acknowledged and forwarded.
    assert_eq!(
        acts,
        vec![
            GdbAction::WriteBytes(b"+".to_vec()),
            GdbAction::SendInstruction(GdbInstruction::Command(b"qSupported".to_vec())),
        ]
    );
    assert_eq!(conn.state, ConnState::AwaitingResponse);
    assert_eq!(conn.buffer, frame(b"vCont?"));
    // The second is forwarded exactly when the response has arrived.
    let acts = conn.on_response(b"PacketSize=3fff");
    assert_eq!(
        acts,
        vec![
            GdbAction::WriteBytes(b"PacketSize=3fff".to_vec()),
            GdbAction::WriteBytes(b"+".to_vec()),
            GdbAction::SendInstruction(GdbInstruction::Command(b"vCont?".to_vec())),
        ]
    );
    assert_eq!(conn.state, ConnState::AwaitingResponse);
}

#[test]
fn markerless_garbage_is_dropped_without_nak() {
    let (mut conn, _) = GdbConnection::new();
    let acts = conn.on_bytes(b"noise without markers");
    assert_eq!(acts, Vec::new());
    assert!(conn.buffer.is_empty());
}

#[test]
fn end_marker_without_start_is_dropped_silently() {
    let (mut conn, _) = GdbConnection::new();
    let acts = conn.on_bytes(b"junk#tail");
    assert_eq!(acts, Vec::new());
    assert!(conn.buffer.is_empty());
}

#[test]
fn partial_frame_waits_for_more_bytes() {
    let (mut conn, _) = GdbConnection::new();
    let acts = conn.on_bytes(b"$abc");
    assert_eq!(acts, Vec::new());
    assert_eq!(conn.buffer, b"$abc".to_vec());
    let mut tail = b"#".to_vec();
    tail.extend_from_slice(&checksum(b"abc"));
    let acts = conn.on_bytes(&tail);
    assert_eq!(
        acts,
        vec![
            GdbAction::WriteBytes(b"+".to_vec()),
            GdbAction::SendInstruction(GdbInstruction::Command(b"abc".to_vec())),
        ]
    );
}

#[test]
fn split_checksum_waits_for_more_bytes() {
    let (mut conn, _) = GdbConnection::new();
    let full = frame(b"g");
    let (head, tail) = full.split_at(full.len() - 1);
    let acts = conn.on_bytes(head);
    assert_eq!(acts, Vec::new());
    let acts = conn.on_bytes(tail);
    assert_eq!(
        acts,
        vec![
            GdbAction::WriteBytes(b"+".to_vec()),
            GdbAction::SendInstruction(GdbInstruction::Command(b"g".to_vec())),
        ]
    );
}
