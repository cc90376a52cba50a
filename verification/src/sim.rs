//! The simulation channel: message translation between the bridge and
//! the JSON protocol spoken by the simulation client, and the
//! session-start payload.

use crate::json::{
    dec_nat, escape, escape_bytes, int_list, lit_bytes, parse_items, parse_string_body, render_u32,
    COMMA, LBRACKET, QUOTE, RBRACE, RBRACKET,
};
use crate::{FlashSegment, GdbInstruction, InstructionView, SimulationPacket};
use vstd::prelude::*;
use vstd::utf8::encode_utf8;

verus! {

/// The leading bytes of a device-output message.
pub open spec fn uart_prefix() -> Seq<u8> {
    encode_utf8("{\"type\":\"uartData\",\"bytes\":["@)
}

/// The leading bytes of a debug-response message.
pub open spec fn resp_prefix() -> Seq<u8> {
    encode_utf8("{\"type\":\"gdbResponse\",\"response\":\""@)
}

/// The canonical device-output message carrying the bytes `b`.
pub open spec fn uart_msg(b: Seq<u8>) -> Seq<u8> {
    uart_prefix() + int_list(b) + seq![RBRACKET, RBRACE]
}

/// The canonical debug-response message carrying the text `t`.
pub open spec fn resp_msg(t: Seq<u8>) -> Seq<u8> {
    resp_prefix() + escape_bytes(t) + seq![QUOTE, RBRACE]
}

/// The canonical message that forwards the debug command `c`.
pub open spec fn gdb_command_msg(c: Seq<u8>) -> Seq<u8> {
    encode_utf8("{\"type\":\"gdb\",\"message\":\""@) + escape_bytes(c) + seq![QUOTE, RBRACE]
}

/// The canonical message that forwards a break request.
pub open spec fn gdb_break_msg() -> Seq<u8> {
    encode_utf8("{\"type\":\"gdbBreak\"}"@)
}

/// One message from the simulation client, after recognition.
#[derive(Debug, Clone, PartialEq, Eq)]
pub enum SimMessage {
    UartData(Vec<u8>),
    GdbResponse(Vec<u8>),
}

/// Specification-level image of a [`SimMessage`].
pub enum SimMessageView {
    UartData(Seq<u8>),
    GdbResponse(Seq<u8>),
}

impl View for SimMessage {
    type V = SimMessageView;

    open spec fn view(&self) -> SimMessageView {
        match self {
            SimMessage::UartData(b) => SimMessageView::UartData(b@),
            SimMessage::GdbResponse(t) => SimMessageView::GdbResponse(t@),
        }
    }
}

/// A message the session cannot go on after.
#[derive(Debug, Clone, Copy, PartialEq, Eq)]
pub enum SessionError {
    /// The client sent a message outside the protocol's repertoire.
    ProtocolViolation,
}

fn starts_with(s: &[u8], p: &Vec<u8>) -> (r: bool)
    ensures
        r == (s@.len() >= p@.len() && s@.take(p@.len() as int) == p@),
{
    if s.len() < p.len() {
        proof {
            assert(s@.len() < p@.len());
        }
        return false;
    }
    let mut i: usize = 0;
    while i < p.len()
        invariant
            i <= p@.len() <= s@.len(),
            forall|j: int| 0 <= j < i ==> s@[j] == p@[j],
        decreases p@.len() - i,
    {
        if s[i] != p[i] {
            proof {
                if s@.take(p@.len() as int) == p@ {
                    assert(s@.take(p@.len() as int)[i as int] == s@[i as int]);
                }
            }
            return false;
        }
        i += 1;
    }
    proof {
        assert(s@.take(p@.len() as int) =~= p@);
    }
    true
}

/// A sequence splits as `p + x` exactly when it is at least as long
/// as `p`, starts with `p`, and continues with `x`.
proof fn lemma_prefix_split(s: Seq<u8>, p: Seq<u8>, x: Seq<u8>)
    ensures
        (s == p + x) <==> (s.len() >= p.len() && s.take(p.len() as int) == p && s.skip(
            p.len() as int,
        ) == x),
{
    if s == p + x {
        assert(s.take(p.len() as int) =~= p);
        assert(s.skip(p.len() as int) =~= x);
    }
    if s.len() >= p.len() && s.take(p.len() as int) == p && s.skip(p.len() as int) == x {
        assert(s =~= p + x);
    }
}

/// Recognizes one inbound message in its canonical spelling and
/// recovers its payload; every other byte string is refused.
pub fn parse_sim_message(text: &[u8]) -> (r: Option<SimMessage>)
    ensures
        match r {
            Some(m) => match m@ {
                SimMessageView::UartData(b) => text@ == uart_msg(b),
                SimMessageView::GdbResponse(t) => text@ == resp_msg(t),
            },
            None => (forall|b: Seq<u8>| text@ != uart_msg(b)) && (forall|t: Seq<u8>|
                text@ != resp_msg(t)),
        },
{
    let up = lit_bytes("{\"type\":\"uartData\",\"bytes\":[");
    let rp = lit_bytes("{\"type\":\"gdbResponse\",\"response\":\"");
    let u_ok = starts_with(text, &up);
    let r_ok = starts_with(text, &rp);
    proof {
        if !u_ok {
            assert forall|b: Seq<u8>| text@ != uart_msg(b) by {
                assert(uart_msg(b) =~= uart_prefix() + (int_list(b) + seq![RBRACKET, RBRACE]));
                lemma_prefix_split(text@, uart_prefix(), int_list(b) + seq![RBRACKET, RBRACE]);
            }
        }
        if !r_ok {
            assert forall|t: Seq<u8>| text@ != resp_msg(t) by {
                assert(resp_msg(t) =~= resp_prefix() + (escape_bytes(t) + seq![QUOTE, RBRACE]));
                lemma_prefix_split(text@, resp_prefix(), escape_bytes(t) + seq![QUOTE, RBRACE]);
            }
        }
    }
    let mut out: Option<SimMessage> = None;
    if u_ok {
        match parse_items(text, up.len()) {
            Some(b) => {
                proof {
                    assert(uart_msg(b@) =~= uart_prefix() + (int_list(b@) + seq![
                        RBRACKET,
                        RBRACE,
                    ]));
                    lemma_prefix_split(
                        text@,
                        uart_prefix(),
                        int_list(b@) + seq![RBRACKET, RBRACE],
                    );
                }
                out = Some(SimMessage::UartData(b));
            },
            None => {
                proof {
                    assert forall|b: Seq<u8>| text@ != uart_msg(b) by {
                        assert(uart_msg(b) =~= uart_prefix() + (int_list(b) + seq![
                            RBRACKET,
                            RBRACE,
                        ]));
                        lemma_prefix_split(
                            text@,
                            uart_prefix(),
                            int_list(b) + seq![RBRACKET, RBRACE],
                        );
                    }
                }
            },
        }
    }
    if out.is_none() && r_ok {
        match parse_string_body(text, rp.len()) {
            Some(t) => {
                proof {
                    assert(resp_msg(t@) =~= resp_prefix() + (escape_bytes(t@) + seq![
                        QUOTE,
                        RBRACE,
                    ]));
                    lemma_prefix_split(text@, resp_prefix(), escape_bytes(t@) + seq![QUOTE, RBRACE]);
                }
                out = Some(SimMessage::GdbResponse(t));
            },
            None => {
                proof {
                    assert forall|t: Seq<u8>| text@ != resp_msg(t) by {
                        assert(resp_msg(t) =~= resp_prefix() + (escape_bytes(t) + seq![
                            QUOTE,
                            RBRACE,
                        ]));
                        lemma_prefix_split(text@, resp_prefix(), escape_bytes(t) + seq![QUOTE, RBRACE]);
                    }
                }
            },
        }
    }
    out
}

/// What the session does with one inbound message: device output is
/// written out verbatim and in order, a debug response goes to the
/// bridge, and anything else ends the session.
#[derive(Debug, Clone, PartialEq, Eq)]
pub enum SimAction {
    WriteOutput(Vec<u8>),
    ForwardResponse(Vec<u8>),
}

/// Specification-level image of a [`SimAction`].
pub enum SimActView {
    WriteOutput(Seq<u8>),
    ForwardResponse(Seq<u8>),
}

impl View for SimAction {
    type V = SimActView;

    open spec fn view(&self) -> SimActView {
        match self {
            SimAction::WriteOutput(b) => SimActView::WriteOutput(b@),
            SimAction::ForwardResponse(t) => SimActView::ForwardResponse(t@),
        }
    }
}

/// A device-output message yields exactly its
/// decoded bytes, written verbatim; a response message forwards its
/// text; any message outside the repertoire is a protocol violation
/// and fails the session.
pub fn handle_client_text(text: &[u8]) -> (r: Result<SimAction, SessionError>)
    ensures
        match r {
            Ok(a) => match a@ {
                SimActView::WriteOutput(b) => text@ == uart_msg(b),
                SimActView::ForwardResponse(t) => text@ == resp_msg(t),
            },
            Err(e) => e == SessionError::ProtocolViolation && (forall|b: Seq<u8>|
                text@ != uart_msg(b)) && (forall|t: Seq<u8>| text@ != resp_msg(t)),
        },
{
    match parse_sim_message(text) {
        Some(SimMessage::UartData(b)) => Ok(SimAction::WriteOutput(b)),
        Some(SimMessage::GdbResponse(t)) => Ok(SimAction::ForwardResponse(t)),
        None => Err(SessionError::ProtocolViolation),
    }
}

/// Renders the outbound message for one bridge instruction.
pub fn render_instruction(instr: &GdbInstruction) -> (r: Vec<u8>)
    ensures
        r@ == match instr@ {
            InstructionView::Command(c) => gdb_command_msg(c),
            InstructionView::Break => gdb_break_msg(),
        },
{
    match instr {
        GdbInstruction::Command(c) => {
            let mut out = lit_bytes("{\"type\":\"gdb\",\"message\":\"");
            let esc = escape(c.as_slice());
            out.extend_from_slice(esc.as_slice());
            out.push(QUOTE);
            out.push(RBRACE);
            proof {
                assert(out@ =~= gdb_command_msg(c@));
            }
            out
        },
        GdbInstruction::Break => lit_bytes("{\"type\":\"gdbBreak\"}"),
    }
}

/// Relies on `base64::encode`: the standard-alphabet, padded base64
/// rendering of a byte string, a function of those bytes alone.
pub uninterp spec fn base64_of(bytes: Seq<u8>) -> Seq<u8>;

/// Relies on `base64::encode` for the encoding itself; the result is
/// named [`base64_of`] and nothing further is assumed of it.
#[verifier::external_body]
fn base64_encode(data: &[u8]) -> (r: Vec<u8>)
    ensures
        r@ == base64_of(data@),
{
    base64::encode(data).into_bytes()
}

impl SimulationPacket {
    /// The payload built from a firmware image and
    /// its flash segments holds exactly one entry per segment, in the
    /// order supplied, each carrying the segment's address and the
    /// base64 rendering of its bytes.
    pub fn build(elf_image: &[u8], segments: &Vec<FlashSegment>) -> (r: SimulationPacket)
        ensures
            r.elf@ == base64_of(elf_image@),
            r.esp_bin@.len() == segments@.len(),
            forall|i: int|
                0 <= i < segments@.len() ==> (#[trigger] r.esp_bin@[i]).0 == segments@[i].addr
                    && r.esp_bin@[i].1@ == base64_of(segments@[i].data@),
    {
        let elf = base64_encode(elf_image);
        let mut esp_bin: Vec<(u32, Vec<u8>)> = Vec::new();
        let mut i: usize = 0;
        while i < segments.len()
            invariant
                i <= segments@.len(),
                esp_bin@.len() == i,
                forall|j: int|
                    0 <= j < i ==> (#[trigger] esp_bin@[j]).0 == segments@[j].addr
                        && esp_bin@[j].1@ == base64_of(segments@[j].data@),
            decreases segments@.len() - i,
        {
            let seg = &segments[i];
            esp_bin.push((seg.addr, base64_encode(seg.data.as_slice())));
            i += 1;
        }
        SimulationPacket { elf, esp_bin }
    }
}

/// One segment entry of the session-start payload: its address and
/// its base64 bytes as a two-element JSON array.
pub open spec fn segment_entry(e: (u32, Vec<u8>)) -> Seq<u8> {
    seq![LBRACKET] + dec_nat(e.0 as nat) + seq![COMMA, QUOTE] + e.1@ + seq![QUOTE, RBRACKET]
}

/// The comma-separated segment entries of the session-start payload.
pub open spec fn segment_list(entries: Seq<(u32, Vec<u8>)>) -> Seq<u8>
    decreases entries.len(),
{
    if entries.len() == 0 {
        seq![]
    } else if entries.len() == 1 {
        segment_entry(entries[0])
    } else {
        segment_entry(entries[0]) + seq![COMMA] + segment_list(entries.drop_first())
    }
}

/// The full session-start message for a built payload.
pub open spec fn start_msg(p: SimulationPacket) -> Seq<u8> {
    encode_utf8("{\"type\":\"start\",\"elf\":\""@) + p.elf@ + encode_utf8("\",\"espBin\":["@)
        + segment_list(p.esp_bin@) + seq![RBRACKET, RBRACE]
}

proof fn lemma_segment_list_snoc(entries: Seq<(u32, Vec<u8>)>, e: (u32, Vec<u8>))
    ensures
        segment_list(entries.push(e)) == if entries.len() == 0 {
            segment_entry(e)
        } else {
            segment_list(entries) + seq![COMMA] + segment_entry(e)
        },
    decreases entries.len(),
{
    if entries.len() == 0 {
        assert(entries.push(e)[0] == e);
        assert(segment_list(entries.push(e)) == segment_entry(e));
    } else {
        lemma_segment_list_snoc(entries.drop_first(), e);
        assert(entries.push(e).drop_first() =~= entries.drop_first().push(e));
        assert(segment_list(entries.push(e)) =~= segment_list(entries) + seq![COMMA]
            + segment_entry(e));
    }
}

/// Renders the session-start message for a built payload.
pub fn render_session_start(p: &SimulationPacket) -> (r: Vec<u8>)
    ensures
        r@ == start_msg(*p),
{
    let mut out = lit_bytes("{\"type\":\"start\",\"elf\":\"");
    out.extend_from_slice(p.elf.as_slice());
    let mid = lit_bytes("\",\"espBin\":[");
    out.extend_from_slice(mid.as_slice());
    let ghost head = out@;
    let mut i: usize = 0;
    proof {
        assert(segment_list(p.esp_bin@.take(0)) =~= seq![]);
        assert(out@ =~= head + segment_list(p.esp_bin@.take(0)));
    }
    while i < p.esp_bin.len()
        invariant
            i <= p.esp_bin@.len(),
            head == encode_utf8("{\"type\":\"start\",\"elf\":\""@) + p.elf@ + encode_utf8(
                "\",\"espBin\":["@,
            ),
            out@ == head + segment_list(p.esp_bin@.take(i as int)),
        decreases p.esp_bin@.len() - i,
    {
        let ghost prev = out@;
        if i > 0 {
            out.push(COMMA);
        }
        let entry = &p.esp_bin[i];
        out.push(LBRACKET);
        let addr = render_u32(entry.0);
        out.extend_from_slice(addr.as_slice());
        out.push(COMMA);
        out.push(QUOTE);
        out.extend_from_slice(entry.1.as_slice());
        out.push(QUOTE);
        out.push(RBRACKET);
        proof {
            lemma_segment_list_snoc(p.esp_bin@.take(i as int), p.esp_bin@[i as int]);
            assert(p.esp_bin@.take(i as int).push(p.esp_bin@[i as int]) =~= p.esp_bin@.take(
                i as int + 1,
            ));
            if i == 0 {
                assert(out@ =~= prev + segment_entry(p.esp_bin@[i as int]));
            } else {
                assert(out@ =~= prev + (seq![COMMA] + segment_entry(p.esp_bin@[i as int])));
            }
            assert(out@ =~= head + segment_list(p.esp_bin@.take(i as int + 1)));
        }
        i += 1;
    }
    out.push(RBRACKET);
    out.push(RBRACE);
    proof {
        assert(p.esp_bin@.take(p.esp_bin@.len() as int) =~= p.esp_bin@);
        assert(out@ =~= start_msg(*p));
    }
    out
}

/// The project chips the simulator can run, standing in for the
/// target-chip identifier of the firmware tooling.
#[derive(Debug, Clone, Copy, PartialEq, Eq)]
pub enum ChipKind {
    Esp32,
    Esp32c3,
    Esp32s2,
    Esp32s3,
}

/// The built-in simulator project chosen for each chip when none is
/// given explicitly.
pub open spec fn default_project_id(c: ChipKind) -> Seq<u8> {
    match c {
        ChipKind::Esp32 => encode_utf8("338154815612781140"@),
        ChipKind::Esp32s2 => encode_utf8("338154940543271506"@),
        ChipKind::Esp32c3 => encode_utf8("338322025101656660"@),
        ChipKind::Esp32s3 => encode_utf8("345144250522927698"@),
    }
}

/// The default simulator project for a chip.
pub fn chip_project_id(c: ChipKind) -> (r: Vec<u8>)
    ensures
        r@ == default_project_id(c),
{
    match c {
        ChipKind::Esp32 => lit_bytes("338154815612781140"),
        ChipKind::Esp32s2 => lit_bytes("338154940543271506"),
        ChipKind::Esp32c3 => lit_bytes("338322025101656660"),
        ChipKind::Esp32s3 => lit_bytes("345144250522927698"),
    }
}

/// The browser link for a simulator project: the embedding page, the
/// local port to connect back to, and the externally reachable host if
/// one was given.
pub open spec fn wokwi_url(project: Seq<u8>, port: u16, host: Option<Seq<u8>>) -> Seq<u8> {
    encode_utf8("https://wokwi.com/_alpha/wembed/"@) + project + encode_utf8(
        "?partner=espressif&port="@,
    ) + dec_nat(port as nat) + encode_utf8("&data=demo"@) + (match host {
        Some(h) => encode_utf8("&_host="@) + h,
        None => Seq::<u8>::empty(),
    })
}

/// Builds the browser link for a simulator project.
pub fn render_wokwi_url(project: &Vec<u8>, port: u16, host: Option<&Vec<u8>>) -> (r: Vec<u8>)
    ensures
        r@ == wokwi_url(project@, port, match host {
            Some(h) => Some(h@),
            None => None,
        }),
{
    let mut out = lit_bytes("https://wokwi.com/_alpha/wembed/");
    out.extend_from_slice(project.as_slice());
    let q = lit_bytes("?partner=espressif&port=");
    out.extend_from_slice(q.as_slice());
    let port_digits = render_u32(port as u32);
    out.extend_from_slice(port_digits.as_slice());
    let tail = lit_bytes("&data=demo");
    out.extend_from_slice(tail.as_slice());
    match host {
        Some(h) => {
            let hp = lit_bytes("&_host=");
            out.extend_from_slice(hp.as_slice());
            out.extend_from_slice(h.as_slice());
            proof {
                assert(out@ =~= wokwi_url(project@, port, Some(h@)));
            }
            out
        },
        None => {
            proof {
                assert(out@ =~= wokwi_url(project@, port, None::<Seq<u8>>));
            }
            out
        },
    }
}

} // verus!
