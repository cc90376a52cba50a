use wokwi_server::sim::{
    chip_project_id, handle_client_text, parse_sim_message, render_instruction,
    render_session_start, render_wokwi_url, ChipKind, SessionError, SimAction, SimMessage,
};
use wokwi_server::{FlashSegment, GdbInstruction, SimulationPacket};

#[test]
fn uart_data_writes_hello_in_order() {
    let mut output = Vec::new();
    for text in [
        br#"{"type":"uartData","bytes":[72,101,108,108,111]}"#.as_slice(),
        br#"{"type":"uartData","bytes":[33]}"#.as_slice(),
    ] {
        match handle_client_text(text) {
            Ok(SimAction::WriteOutput(bytes)) => output.extend_from_slice(&bytes),
            other => panic!("unexpected action: {:?}", other),
        }
    }
    assert_eq!(output, b"Hello!".to_vec());
}

#[test]
fn uart_data_empty_list_writes_nothing() {
    let r = handle_client_text(br#"{"type":"uartData","bytes":[]}"#);
    assert_eq!(r, Ok(SimAction::WriteOutput(Vec::new())));
}

#[test]
fn uart_data_accepts_full_byte_range() {
    let r = handle_client_text(br#"{"type":"uartData","bytes":[0,9,10,99,100,255]}"#);
    assert_eq!(r, Ok(SimAction::WriteOutput(vec![0, 9, 10, 99, 100, 255])));
}

#[test]
fn gdb_response_is_forwarded() {
    let r = handle_client_text(br#"{"type":"gdbResponse","response":"PacketSize=3fff"}"#);
    assert_eq!(
        r,
        Ok(SimAction::ForwardResponse(b"PacketSize=3fff".to_vec()))
    );
}

#[test]
fn gdb_response_unescapes_quotes_backslashes_and_controls() {
    let text = b"{\"type\":\"gdbResponse\",\"response\":\"a\\\"b\\\\c\\u0003\"}";
    let r = handle_client_text(text);
    assert_eq!(
        r,
        Ok(SimAction::ForwardResponse(vec![
            b'a', b'"', b'b', b'\\', b'c', 0x03
        ]))
    );
}

#[test]
fn unrecognized_type_is_a_protocol_violation() {
    let r = handle_client_text(br#"{"type":"bogus"}"#);
    assert_eq!(r, Err(SessionError::ProtocolViolation));
}

#[test]
fn leading_zero_in_uart_bytes_is_refused() {
    let r = handle_client_text(br#"{"type":"uartData","bytes":[01]}"#);
    assert_eq!(r, Err(SessionError::ProtocolViolation));
}

#[test]
fn out_of_range_uart_byte_is_refused() {
    let r = handle_client_text(br#"{"type":"uartData","bytes":[256]}"#);
    assert_eq!(r, Err(SessionError::ProtocolViolation));
}

#[test]
fn parse_recovers_uart_message() {
    let m = parse_sim_message(br#"{"type":"uartData","bytes":[1,2,3]}"#);
    assert_eq!(m, Some(SimMessage::UartData(vec![1, 2, 3])));
}

#[test]
fn command_message_is_canonical_json() {
    let rendered = render_instruction(&GdbInstruction::Command(b"qSupported".to_vec()));
    assert_eq!(
        rendered,
        br#"{"type":"gdb","message":"qSupported"}"#.to_vec()
    );
    let v: serde_json::Value = serde_json::from_slice(&rendered).unwrap();
    assert_eq!(v["type"], "gdb");
    assert_eq!(v["message"], "qSupported");
}

#[test]
fn command_message_escapes_its_text() {
    let rendered = render_instruction(&GdbInstruction::Command(vec![b'a', b'"', b'\\', 0x1b]));
    let v: serde_json::Value = serde_json::from_slice(&rendered).unwrap();
    assert_eq!(v["message"], "a\"\\\u{1b}");
}

#[test]
fn break_message_is_canonical_json() {
    let rendered = render_instruction(&GdbInstruction::Break);
    assert_eq!(rendered, br#"{"type":"gdbBreak"}"#.to_vec());
    let v: serde_json::Value = serde_json::from_slice(&rendered).unwrap();
    assert_eq!(v["type"], "gdbBreak");
}

#[test]
fn packet_holds_three_segments_in_order_with_decodable_payloads() {
    let elf = b"\x7fELF-image".to_vec();
    let segments = vec![
        FlashSegment { addr: 0x1000, data: vec![1, 2, 3] },
        FlashSegment { addr: 0x8000, data: vec![4, 5] },
        FlashSegment { addr: 0x10000, data: vec![6] },
    ];
    let p = SimulationPacket::build(&elf, &segments);
    assert_eq!(base64::decode(&p.elf).unwrap(), elf);
    assert_eq!(p.esp_bin.len(), 3);
    for (entry, seg) in p.esp_bin.iter().zip(segments.iter()) {
        assert_eq!(entry.0, seg.addr);
        assert_eq!(base64::decode(&entry.1).unwrap(), seg.data);
    }
}

#[test]
fn session_start_message_carries_the_segments() {
    let elf = b"firmware".to_vec();
    let segments = vec![
        FlashSegment { addr: 4096, data: vec![1, 2, 3] },
        FlashSegment { addr: 32768, data: vec![4, 5] },
        FlashSegment { addr: 65536, data: vec![6] },
    ];
    let p = SimulationPacket::build(&elf, &segments);
    let msg = render_session_start(&p);
    let v: serde_json::Value = serde_json::from_slice(&msg).unwrap();
    assert_eq!(v["type"], "start");
    assert_eq!(
        base64::decode(v["elf"].as_str().unwrap()).unwrap(),
        elf
    );
    let bins = v["espBin"].as_array().unwrap();
    assert_eq!(bins.len(), 3);
    for (entry, seg) in bins.iter().zip(segments.iter()) {
        assert_eq!(entry[0].as_u64().unwrap(), seg.addr as u64);
        assert_eq!(
            base64::decode(entry[1].as_str().unwrap()).unwrap(),
            seg.data
        );
    }
}

#[test]
fn wokwi_url_without_host() {
    let url = render_wokwi_url(&b"338154815612781140".to_vec(), 9012, None);
    assert_eq!(
        url,
        b"https://wokwi.com/_alpha/wembed/338154815612781140?partner=espressif&port=9012&data=demo"
            .to_vec()
    );
}

#[test]
fn wokwi_url_with_host() {
    let url = render_wokwi_url(&b"123".to_vec(), 9012, Some(&b"host.example".to_vec()));
    assert_eq!(
        url,
        b"https://wokwi.com/_alpha/wembed/123?partner=espressif&port=9012&data=demo&_host=host.example"
            .to_vec()
    );
}

#[test]
fn each_chip_has_its_default_project() {
    assert_eq!(chip_project_id(ChipKind::Esp32), b"338154815612781140".to_vec());
    assert_eq!(chip_project_id(ChipKind::Esp32s2), b"338154940543271506".to_vec());
    assert_eq!(chip_project_id(ChipKind::Esp32c3), b"338322025101656660".to_vec());
    assert_eq!(chip_project_id(ChipKind::Esp32s3), b"345144250522927698".to_vec());
}
