//! Per-connection state machine of the debug channel server.
//!
//! A connection accumulates the bytes it reads into a buffer and moves
//! between two states: `AwaitingFrame`, in which the buffer is scanned
//! for frames, and `AwaitingResponse`, entered when a valid frame has
//! been forwarded and left only when the response for it has arrived.
//! While a response is outstanding no further frame is looked at, so at
//! most one command is ever in flight; interrupt bytes alone bypass the
//! wait and are forwarded the moment they are read.

use crate::codec::{
    act_interrupt_free, act_views, checksum_text, frame_bytes, frame_scan, interrupt_count,
    lemma_scan_interrupt_free, lemma_scan_invalid_frame, lemma_scan_valid_frame,
    lemma_strip_interrupt_free, lemma_strip_no_interrupts, remove_interrupts, scan_frames,
    strip_interrupts, FrameActView, FrameAction, ACK, FRAME_END, FRAME_START, INTERRUPT, NAK,
};
use crate::{GdbInstruction, InstructionView};
use vstd::prelude::*;

verus! {

/// The two states of a debug connection.
#[derive(Debug, Clone, Copy, PartialEq, Eq)]
pub enum ConnState {
    AwaitingFrame,
    AwaitingResponse,
}

/// What a step of the connection machine asks its caller to perform:
/// write bytes back to the debugger, or send an instruction to the
/// simulation side.
#[derive(Debug, Clone, PartialEq, Eq)]
pub enum GdbAction {
    WriteBytes(Vec<u8>),
    SendInstruction(GdbInstruction),
}

/// Specification-level image of a [`GdbAction`].
pub enum GdbActView {
    Write(Seq<u8>),
    Send(InstructionView),
}

impl View for GdbAction {
    type V = GdbActView;

    open spec fn view(&self) -> GdbActView {
        match self {
            GdbAction::WriteBytes(b) => GdbActView::Write(b@),
            GdbAction::SendInstruction(i) => GdbActView::Send(i@),
        }
    }
}

/// The views of a sequence of actions.
pub open spec fn gdb_act_views(acts: Seq<GdbAction>) -> Seq<GdbActView> {
    acts.map_values(|a: GdbAction| a@)
}

/// One debug connection: its state and the bytes read but not yet
/// consumed.
#[derive(Debug)]
pub struct GdbConnection {
    pub state: ConnState,
    pub buffer: Vec<u8>,
}

/// Specification-level image of a connection.
pub struct ConnView {
    pub state: ConnState,
    pub buffer: Seq<u8>,
}

impl View for GdbConnection {
    type V = ConnView;

    open spec fn view(&self) -> ConnView {
        ConnView { state: self.state, buffer: self.buffer@ }
    }
}

/// How one scanner action appears on the wire and on the bridge.
pub open spec fn frame_act_to_wire(a: FrameActView) -> GdbActView {
    match a {
        FrameActView::Ack => GdbActView::Write(seq![ACK]),
        FrameActView::Nak => GdbActView::Write(seq![NAK]),
        FrameActView::Cmd(c) => GdbActView::Send(InstructionView::Command(c)),
    }
}

/// `n` break instructions, one per interrupt byte seen.
pub open spec fn break_acts(n: nat) -> Seq<GdbActView> {
    Seq::new(n, |i: int| GdbActView::Send(InstructionView::Break))
}

/// The wire images of a sequence of scanner actions.
pub open spec fn wire_views(acts: Seq<FrameActView>) -> Seq<GdbActView> {
    acts.map_values(|a: FrameActView| frame_act_to_wire(a))
}

/// The step taken when the connection reads `input` from its stream:
/// every interrupt byte becomes one break instruction at once; the
/// remaining bytes join the buffer; and, unless a response is still
/// outstanding, the buffer is scanned for frames.
pub open spec fn step_bytes(pre: ConnView, input: Seq<u8>) -> (ConnView, Seq<GdbActView>) {
    let clean = pre.buffer + strip_interrupts(input);
    let breaks = break_acts(interrupt_count(input));
    if pre.state is AwaitingResponse {
        (ConnView { state: pre.state, buffer: clean }, breaks)
    } else {
        let out = frame_scan(clean);
        (
            ConnView {
                state: if out.awaiting {
                    ConnState::AwaitingResponse
                } else {
                    ConnState::AwaitingFrame
                },
                buffer: out.rest,
            },
            breaks + wire_views(out.acts),
        )
    }
}

/// The step taken when the response to the outstanding command
/// arrives: its bytes are written back to the debugger verbatim, and
/// scanning resumes on whatever the buffer still holds.  A response
/// with no command outstanding is likewise written verbatim and
/// changes nothing else.
pub open spec fn step_response(pre: ConnView, resp: Seq<u8>) -> (ConnView, Seq<GdbActView>) {
    if pre.state is AwaitingResponse {
        let out = frame_scan(pre.buffer);
        (
            ConnView {
                state: if out.awaiting {
                    ConnState::AwaitingResponse
                } else {
                    ConnState::AwaitingFrame
                },
                buffer: out.rest,
            },
            seq![GdbActView::Write(resp)] + wire_views(out.acts),
        )
    } else {
        (pre, seq![GdbActView::Write(resp)])
    }
}

fn single_byte(b: u8) -> (v: Vec<u8>)
    ensures
        v@ == seq![b],
{
    let mut v: Vec<u8> = Vec::new();
    v.push(b);
    proof {
        assert(v@ =~= seq![b]);
    }
    v
}

/// Appends the wire image of each scanner action to `acts`.
fn push_frame_acts(acts: &mut Vec<GdbAction>, facts: Vec<FrameAction>)
    ensures
        gdb_act_views(final(acts)@) == gdb_act_views(old(acts)@) + wire_views(act_views(facts@)),
{
    let ghost all = facts@;
    let ghost base = acts@;
    let ghost mapped = wire_views(act_views(all));
    let mut facts = facts;
    let n = facts.len();
    let mut j: usize = 0;
    proof {
        assert(gdb_act_views(acts@) =~= gdb_act_views(base) + mapped.take(0));
    }
    while facts.len() > 0
        invariant
            all.len() == n,
            j + facts@.len() == all.len(),
            facts@ == all.skip(j as int),
            mapped == wire_views(act_views(all)),
            gdb_act_views(acts@) == gdb_act_views(base) + mapped.take(j as int),
        decreases facts@.len(),
    {
        let ghost prev = acts@;
        let fa = facts.remove(0);
        proof {
            assert(fa == all[j as int]);
            assert(facts@ =~= all.skip(j as int + 1));
        }
        match fa {
            FrameAction::Ack => {
                acts.push(GdbAction::WriteBytes(single_byte(ACK)));
            },
            FrameAction::Nak => {
                acts.push(GdbAction::WriteBytes(single_byte(NAK)));
            },
            FrameAction::Command(c) => {
                acts.push(GdbAction::SendInstruction(GdbInstruction::Command(c)));
            },
        }
        j += 1;
        proof {
            assert(gdb_act_views(acts@) =~= gdb_act_views(prev).push(
                frame_act_to_wire(all[j - 1]@),
            ));
            assert(mapped.take(j as int) =~= mapped.take(j - 1).push(
                frame_act_to_wire(all[j - 1]@),
            ));
            assert(gdb_act_views(acts@) =~= gdb_act_views(base) + mapped.take(j as int));
        }
    }
    proof {
        assert(facts@ =~= Seq::<FrameAction>::empty());
        assert(mapped.take(j as int) =~= mapped);
    }
}

impl GdbConnection {
    /// A connection as it starts: no buffered bytes, no frame awaited,
    /// and the one acknowledgment byte written on connect.
    pub fn new() -> (r: (GdbConnection, Vec<GdbAction>))
        ensures
            r.0@ == (ConnView { state: ConnState::AwaitingFrame, buffer: Seq::<u8>::empty() }),
            gdb_act_views(r.1@) == seq![GdbActView::Write(seq![ACK])],
    {
        let conn = GdbConnection { state: ConnState::AwaitingFrame, buffer: Vec::new() };
        let mut acts: Vec<GdbAction> = Vec::new();
        acts.push(GdbAction::WriteBytes(single_byte(ACK)));
        proof {
            assert(gdb_act_views(acts@) =~= seq![GdbActView::Write(seq![ACK])]);
        }
        (conn, acts)
    }

    /// Feeds bytes read from the debugger into the machine.
    pub fn on_bytes(&mut self, input: &[u8]) -> (acts: Vec<GdbAction>)
        ensures
            final(self)@ == step_bytes(old(self)@, input@).0,
            gdb_act_views(acts@) == step_bytes(old(self)@, input@).1,
    {
        let (mut clean, count) = remove_interrupts(input);
        let mut acts: Vec<GdbAction> = Vec::new();
        let mut k: usize = 0;
        proof {
            assert(gdb_act_views(acts@) =~= break_acts(0));
        }
        while k < count
            invariant
                k <= count,
                gdb_act_views(acts@) == break_acts(k as nat),
            decreases count - k,
        {
            let ghost prev = acts@;
            acts.push(GdbAction::SendInstruction(GdbInstruction::Break));
            k += 1;
            proof {
                assert(gdb_act_views(acts@) =~= gdb_act_views(prev).push(
                    GdbActView::Send(InstructionView::Break),
                ));
                assert(gdb_act_views(prev).push(GdbActView::Send(InstructionView::Break)) =~= break_acts(
                    k as nat,
                ));
            }
        }
        self.buffer.append(&mut clean);
        match self.state {
            ConnState::AwaitingResponse => acts,
            ConnState::AwaitingFrame => {
                let (facts, awaiting) = scan_frames(&mut self.buffer);
                self.state = if awaiting {
                    ConnState::AwaitingResponse
                } else {
                    ConnState::AwaitingFrame
                };
                push_frame_acts(&mut acts, facts);
                acts
            },
        }
    }

    /// Delivers the response to the outstanding command: it is written
    /// back to the debugger verbatim, and frame scanning resumes.
    pub fn on_response(&mut self, resp: &[u8]) -> (acts: Vec<GdbAction>)
        ensures
            final(self)@ == step_response(old(self)@, resp@).0,
            gdb_act_views(acts@) == step_response(old(self)@, resp@).1,
    {
        let mut acts: Vec<GdbAction> = Vec::new();
        acts.push(GdbAction::WriteBytes(vstd::slice::slice_to_vec(resp)));
        proof {
            assert(gdb_act_views(acts@) =~= seq![GdbActView::Write(resp@)]);
        }
        match self.state {
            ConnState::AwaitingFrame => acts,
            ConnState::AwaitingResponse => {
                let (facts, awaiting) = scan_frames(&mut self.buffer);
                self.state = if awaiting {
                    ConnState::AwaitingResponse
                } else {
                    ConnState::AwaitingFrame
                };
                push_frame_acts(&mut acts, facts);
                acts
            },
        }
    }
}

/// Well-formedness of a connection: its buffer never holds an
/// interrupt byte, because interrupts are consumed the moment they are
/// read.
pub open spec fn conn_inv(c: ConnView) -> bool {
    forall|i: int| 0 <= i < c.buffer.len() ==> c.buffer[i] != INTERRUPT
}

/// How many break instructions a sequence of actions sends.
pub open spec fn break_count(acts: Seq<GdbActView>) -> nat
    decreases acts.len(),
{
    if acts.len() == 0 {
        0
    } else {
        break_count(acts.drop_last()) + (if acts.last() == GdbActView::Send(
            InstructionView::Break,
        ) {
            1nat
        } else {
            0nat
        })
    }
}

/// True unless the action sends a command holding an interrupt byte.
pub open spec fn command_interrupt_free(a: GdbActView) -> bool {
    match a {
        GdbActView::Send(InstructionView::Command(c)) => forall|i: int|
            0 <= i < c.len() ==> c[i] != INTERRUPT,
        _ => true,
    }
}

/// True when the action sends a command instruction.
pub open spec fn is_command_send(a: GdbActView) -> bool {
    match a {
        GdbActView::Send(InstructionView::Command(c)) => true,
        _ => false,
    }
}

proof fn lemma_break_count_add(a: Seq<GdbActView>, b: Seq<GdbActView>)
    ensures
        break_count(a + b) == break_count(a) + break_count(b),
    decreases b.len(),
{
    if b.len() == 0 {
        assert(a + b =~= a);
    } else {
        lemma_break_count_add(a, b.drop_last());
        assert((a + b).drop_last() =~= a + b.drop_last());
        assert((a + b).last() == b.last());
    }
}

proof fn lemma_break_count_breaks(n: nat)
    ensures
        break_count(break_acts(n)) == n,
    decreases n,
{
    if n > 0 {
        lemma_break_count_breaks((n - 1) as nat);
        assert(break_acts(n).drop_last() =~= break_acts((n - 1) as nat));
    }
}

proof fn lemma_break_count_wire(acts: Seq<FrameActView>)
    ensures
        break_count(wire_views(acts)) == 0,
    decreases acts.len(),
{
    if acts.len() > 0 {
        lemma_break_count_wire(acts.drop_last());
        assert(wire_views(acts).drop_last() =~= wire_views(acts.drop_last()));
        assert(wire_views(acts).last() == frame_act_to_wire(acts.last()));
    }
}

proof fn lemma_frame_bytes_interrupt_free(cmd: Seq<u8>)
    requires
        !cmd.contains(INTERRUPT),
    ensures
        forall|i: int| 0 <= i < frame_bytes(cmd).len() ==> frame_bytes(cmd)[i] != INTERRUPT,
{
    let fb = frame_bytes(cmd);
    assert forall|i: int| 0 <= i < fb.len() implies fb[i] != INTERRUPT by {
        if 1 <= i < 1 + cmd.len() {
            assert(fb[i] == cmd[i - 1]);
            if cmd[i - 1] == INTERRUPT {
                assert(cmd.contains(INTERRUPT));
            }
        }
    }
}

/// On an idle connection, a frame carrying command
/// `cmd` with its correct checksum is acknowledged and forwards the
/// command unchanged, and the connection then awaits the one response.
pub proof fn lemma_valid_frame_forwarded(conn: ConnView, cmd: Seq<u8>)
    requires
        conn.state is AwaitingFrame,
        conn.buffer == Seq::<u8>::empty(),
        !cmd.contains(FRAME_END),
        !cmd.contains(INTERRUPT),
    ensures
        ({
            let (post, acts) = step_bytes(conn, frame_bytes(cmd));
            &&& acts == seq![
                GdbActView::Write(seq![ACK]),
                GdbActView::Send(InstructionView::Command(cmd)),
            ]
            &&& post.state is AwaitingResponse
            &&& post.buffer == Seq::<u8>::empty()
        }),
{
    let fb = frame_bytes(cmd);
    lemma_frame_bytes_interrupt_free(cmd);
    lemma_strip_no_interrupts(fb);
    lemma_scan_valid_frame(cmd, Seq::<u8>::empty());
    assert(conn.buffer + fb =~= fb + Seq::<u8>::empty());
    let out = frame_scan(fb + Seq::<u8>::empty());
    assert(break_acts(0) + wire_views(out.acts) =~= seq![
        GdbActView::Write(seq![ACK]),
        GdbActView::Send(InstructionView::Command(cmd)),
    ]);
}

/// A frame whose trailing two bytes differ from the
/// checksum of its command is answered with one negative
/// acknowledgment, nothing is forwarded, and the connection stays
/// ready for the retransmission.
pub proof fn lemma_invalid_frame_rejected(conn: ConnView, cmd: Seq<u8>, tail: Seq<u8>)
    requires
        conn.state is AwaitingFrame,
        conn.buffer == Seq::<u8>::empty(),
        !cmd.contains(FRAME_END),
        !cmd.contains(INTERRUPT),
        tail.len() == 2,
        tail[0] != INTERRUPT,
        tail[1] != INTERRUPT,
        tail != checksum_text(cmd),
    ensures
        ({
            let (post, acts) = step_bytes(conn, seq![FRAME_START] + cmd + seq![FRAME_END] + tail);
            &&& acts == seq![GdbActView::Write(seq![NAK])]
            &&& post.state is AwaitingFrame
            &&& post.buffer == Seq::<u8>::empty()
        }),
{
    let input = seq![FRAME_START] + cmd + seq![FRAME_END] + tail;
    assert forall|i: int| 0 <= i < input.len() implies input[i] != INTERRUPT by {
        if 1 <= i < 1 + cmd.len() {
            assert(input[i] == cmd[i - 1]);
            if cmd[i - 1] == INTERRUPT {
                assert(cmd.contains(INTERRUPT));
            }
        }
    }
    lemma_strip_no_interrupts(input);
    lemma_scan_invalid_frame(cmd, tail, Seq::<u8>::empty());
    assert(conn.buffer + input =~= seq![FRAME_START] + cmd + seq![FRAME_END] + tail
        + Seq::<u8>::empty());
    let out = frame_scan(seq![FRAME_START] + cmd + seq![FRAME_END] + tail + Seq::<u8>::empty());
    assert(break_acts(0) + wire_views(out.acts) =~= seq![GdbActView::Write(seq![NAK])]);
}

/// Every interrupt byte read yields exactly one
/// break instruction, and no interrupt byte ever becomes part of a
/// forwarded command; the buffer stays free of interrupt bytes.
pub proof fn lemma_interrupts_break_out(conn: ConnView, input: Seq<u8>)
    requires
        conn_inv(conn),
    ensures
        ({
            let (post, acts) = step_bytes(conn, input);
            &&& break_count(acts) == interrupt_count(input)
            &&& forall|k: int| 0 <= k < acts.len() ==> command_interrupt_free(#[trigger] acts[k])
            &&& conn_inv(post)
        }),
{
    let clean = conn.buffer + strip_interrupts(input);
    let breaks = break_acts(interrupt_count(input));
    lemma_strip_interrupt_free(input);
    assert forall|i: int| 0 <= i < clean.len() implies clean[i] != INTERRUPT by {
        if i < conn.buffer.len() {
            assert(clean[i] == conn.buffer[i]);
        } else {
            assert(clean[i] == strip_interrupts(input)[i - conn.buffer.len()]);
        }
    }
    if conn.state is AwaitingResponse {
        lemma_break_count_breaks(interrupt_count(input));
        assert(breaks + Seq::<GdbActView>::empty() =~= breaks);
        lemma_break_count_add(breaks, Seq::<GdbActView>::empty());
    } else {
        let out = frame_scan(clean);
        lemma_scan_interrupt_free(clean);
        lemma_break_count_breaks(interrupt_count(input));
        lemma_break_count_add(breaks, wire_views(out.acts));
        lemma_break_count_wire(out.acts);
        let acts = breaks + wire_views(out.acts);
        assert forall|k: int| 0 <= k < acts.len() implies command_interrupt_free(
            #[trigger] acts[k],
        ) by {
            if k < breaks.len() {
                assert(acts[k] == breaks[k]);
            } else {
                let j = k - breaks.len();
                assert(acts[k] == wire_views(out.acts)[j]);
                assert(wire_views(out.acts)[j] == frame_act_to_wire(out.acts[j]));
                assert(act_interrupt_free(out.acts[j]));
            }
        }
    }
}

/// While a response is outstanding, reading more
/// bytes forwards no command, whatever the bytes hold; the new bytes
/// only join the buffer, and interrupts alone break out.
pub proof fn lemma_no_command_while_outstanding(conn: ConnView, input: Seq<u8>)
    requires
        conn.state is AwaitingResponse,
    ensures
        ({
            let (post, acts) = step_bytes(conn, input);
            &&& forall|k: int| 0 <= k < acts.len() ==> !is_command_send(#[trigger] acts[k])
            &&& post.state is AwaitingResponse
            &&& post.buffer == conn.buffer + strip_interrupts(input)
        }),
{
}

/// A response is written back to the debugger
/// verbatim, before anything else the step does; and delivering it
/// keeps the buffer free of interrupt bytes.
pub proof fn lemma_response_passthrough(conn: ConnView, resp: Seq<u8>)
    requires
        conn_inv(conn),
    ensures
        step_response(conn, resp).1.len() >= 1,
        step_response(conn, resp).1[0] == GdbActView::Write(resp),
        conn_inv(step_response(conn, resp).0),
{
    if conn.state is AwaitingResponse {
        lemma_scan_interrupt_free(conn.buffer);
    }
}

/// Of two frames read back to back, only the first
/// is forwarded at once; the second is forwarded exactly when the
/// response to the first has been delivered.
pub proof fn lemma_back_to_back_frames(cmd1: Seq<u8>, cmd2: Seq<u8>, resp: Seq<u8>)
    requires
        !cmd1.contains(FRAME_END),
        !cmd1.contains(INTERRUPT),
        !cmd2.contains(FRAME_END),
        !cmd2.contains(INTERRUPT),
    ensures
        ({
            let start = ConnView { state: ConnState::AwaitingFrame, buffer: Seq::<u8>::empty() };
            let (s1, a1) = step_bytes(start, frame_bytes(cmd1) + frame_bytes(cmd2));
            let (s2, a2) = step_response(s1, resp);
            &&& a1 == seq![
                GdbActView::Write(seq![ACK]),
                GdbActView::Send(InstructionView::Command(cmd1)),
            ]
            &&& s1.state is AwaitingResponse
            &&& s1.buffer == frame_bytes(cmd2)
            &&& a2 == seq![
                GdbActView::Write(resp),
                GdbActView::Write(seq![ACK]),
                GdbActView::Send(InstructionView::Command(cmd2)),
            ]
            &&& s2.state is AwaitingResponse
            &&& s2.buffer == Seq::<u8>::empty()
        }),
{
    let start = ConnView { state: ConnState::AwaitingFrame, buffer: Seq::<u8>::empty() };
    let input = frame_bytes(cmd1) + frame_bytes(cmd2);
    lemma_frame_bytes_interrupt_free(cmd1);
    lemma_frame_bytes_interrupt_free(cmd2);
    assert forall|i: int| 0 <= i < input.len() implies input[i] != INTERRUPT by {
        if i < frame_bytes(cmd1).len() {
            assert(input[i] == frame_bytes(cmd1)[i]);
        } else {
            assert(input[i] == frame_bytes(cmd2)[i - frame_bytes(cmd1).len()]);
        }
    }
    lemma_strip_no_interrupts(input);
    lemma_scan_valid_frame(cmd1, frame_bytes(cmd2));
    assert(start.buffer + input =~= frame_bytes(cmd1) + frame_bytes(cmd2));
    let out1 = frame_scan(frame_bytes(cmd1) + frame_bytes(cmd2));
    assert(break_acts(0) + wire_views(out1.acts) =~= seq![
        GdbActView::Write(seq![ACK]),
        GdbActView::Send(InstructionView::Command(cmd1)),
    ]);
    let s1 = step_bytes(start, input).0;
    lemma_scan_valid_frame(cmd2, Seq::<u8>::empty());
    assert(s1.buffer =~= frame_bytes(cmd2) + Seq::<u8>::empty());
    let out2 = frame_scan(frame_bytes(cmd2) + Seq::<u8>::empty());
    assert(seq![GdbActView::Write(resp)] + wire_views(out2.acts) =~= seq![
        GdbActView::Write(resp),
        GdbActView::Write(seq![ACK]),
        GdbActView::Send(InstructionView::Command(cmd2)),
    ]);
}

} // verus!
