//! Stateless packet codec for the debug channel: checksum arithmetic
//! over command bytes and the hex rendering of the checksum field.

use vstd::prelude::*;

verus! {

/// Frame start marker `$`.
pub const FRAME_START: u8 = 36;
/// Frame end marker `#`.
pub const FRAME_END: u8 = 35;
/// Out-of-band interrupt byte.
pub const INTERRUPT: u8 = 3;
/// Positive acknowledgment `+`.
pub const ACK: u8 = 43;
/// Negative acknowledgment `-`.
pub const NAK: u8 = 45;

/// Sum of the byte values of a command, before reduction modulo 256.
pub open spec fn byte_sum(s: Seq<u8>) -> nat
    decreases s.len(),
{
    if s.len() == 0 {
        0
    } else {
        byte_sum(s.drop_last()) + s.last() as nat
    }
}

/// The checksum of a command: its byte sum reduced modulo 256.
pub open spec fn checksum_byte(cmd: Seq<u8>) -> u8 {
    (byte_sum(cmd) % 256) as u8
}

/// The ASCII code of the lowercase hex digit for a value below 16.
pub open spec fn hex_digit(n: u8) -> u8
    recommends
        n < 16,
{
    if n < 10 {
        (48 + n) as u8
    } else {
        (87 + n) as u8
    }
}

/// The two-byte lowercase hex rendering of a command's checksum,
/// exactly as it appears at the tail of a frame.
pub open spec fn checksum_text(cmd: Seq<u8>) -> Seq<u8> {
    seq![hex_digit(checksum_byte(cmd) / 16), hex_digit(checksum_byte(cmd) % 16)]
}

/// First index at which byte `b` occurs in `s`, if any.
pub open spec fn find_byte(s: Seq<u8>, b: u8) -> Option<int>
    decreases s.len(),
{
    if s.len() == 0 {
        None
    } else if s[0] == b {
        Some(0)
    } else {
        match find_byte(s.drop_first(), b) {
            None => None,
            Some(i) => Some(i + 1),
        }
    }
}

/// `find_byte` returns the first occurrence of `b`, or `None` when `b`
/// does not occur at all.
pub proof fn lemma_find_byte(s: Seq<u8>, b: u8)
    ensures
        match find_byte(s, b) {
            Some(i) => 0 <= i < s.len() && s[i] == b && (forall|j: int| 0 <= j < i ==> s[j] != b),
            None => forall|j: int| 0 <= j < s.len() ==> s[j] != b,
        },
    decreases s.len(),
{
    if s.len() > 0 && s[0] != b {
        let sub = s.drop_first();
        lemma_find_byte(sub, b);
        match find_byte(sub, b) {
            None => {
                assert forall|j: int| 0 <= j < s.len() implies s[j] != b by {
                    if j > 0 {
                        assert(sub[j - 1] == s[j]);
                    }
                }
            },
            Some(i) => {
                assert(sub[i] == s[i + 1]);
                assert forall|j: int| 0 <= j < i + 1 implies s[j] != b by {
                    if j > 0 {
                        assert(sub[j - 1] == s[j]);
                    }
                }
            },
        }
    }
}

/// Bytes of `s` with every interrupt byte removed.
pub open spec fn strip_interrupts(s: Seq<u8>) -> Seq<u8>
    decreases s.len(),
{
    if s.len() == 0 {
        seq![]
    } else if s.last() == INTERRUPT {
        strip_interrupts(s.drop_last())
    } else {
        strip_interrupts(s.drop_last()).push(s.last())
    }
}

/// How many interrupt bytes `s` holds.
pub open spec fn interrupt_count(s: Seq<u8>) -> nat
    decreases s.len(),
{
    if s.len() == 0 {
        0
    } else {
        interrupt_count(s.drop_last()) + (if s.last() == INTERRUPT {
            1nat
        } else {
            0nat
        })
    }
}

/// One step of the frame scanner, described at the specification
/// level: the acknowledgments and commands it emits, the bytes it
/// leaves in the buffer, and whether a valid frame made it stop to
/// await a response.
pub struct ScanOut {
    pub acts: Seq<FrameActView>,
    pub rest: Seq<u8>,
    pub awaiting: bool,
}

/// Specification-level image of one scanner action.
pub enum FrameActView {
    Ack,
    Nak,
    Cmd(Seq<u8>),
}

/// What the scanner does to an interrupt-free buffer, following the
/// frame discipline: garbage without markers is dropped; an end marker
/// with no start before it is dropped up to and including the marker;
/// a start marker without a complete frame behind it is retained; a
/// complete frame is checked against its trailing two checksum bytes
/// and answered with an acknowledgment and the forwarded command, or
/// with a negative acknowledgment alone.  Scanning stops at the first
/// valid frame, whose response must arrive before any later frame may
/// be looked at.
pub open spec fn frame_scan(buf: Seq<u8>) -> ScanOut
    decreases buf.len(),
    via frame_scan_decreases
{
    match (find_byte(buf, FRAME_START), find_byte(buf, FRAME_END)) {
        (None, None) => ScanOut { acts: seq![], rest: seq![], awaiting: false },
        (Some(d), None) => ScanOut { acts: seq![], rest: buf.skip(d), awaiting: false },
        (None, Some(h)) => frame_scan(buf.skip(h + 1)),
        (Some(d), Some(h)) => {
            if h < d {
                frame_scan(buf.skip(h + 1))
            } else if buf.len() < h + 3 {
                ScanOut { acts: seq![], rest: buf.skip(d), awaiting: false }
            } else {
                let cmd = buf.subrange(d + 1, h);
                if buf.subrange(h + 1, h + 3) == checksum_text(cmd) {
                    ScanOut {
                        acts: seq![FrameActView::Ack, FrameActView::Cmd(cmd)],
                        rest: buf.skip(h + 3),
                        awaiting: true,
                    }
                } else {
                    let tail = frame_scan(buf.skip(h + 3));
                    ScanOut {
                        acts: seq![FrameActView::Nak] + tail.acts,
                        rest: tail.rest,
                        awaiting: tail.awaiting,
                    }
                }
            }
        },
    }
}

#[via_fn]
proof fn frame_scan_decreases(buf: Seq<u8>) {
    lemma_find_byte(buf, FRAME_START);
    lemma_find_byte(buf, FRAME_END);
}

/// One scanner action, as produced by executable code.
#[derive(Debug, Clone, PartialEq, Eq)]
pub enum FrameAction {
    Ack,
    Nak,
    Command(Vec<u8>),
}

impl View for FrameAction {
    type V = FrameActView;

    open spec fn view(&self) -> FrameActView {
        match self {
            FrameAction::Ack => FrameActView::Ack,
            FrameAction::Nak => FrameActView::Nak,
            FrameAction::Command(c) => FrameActView::Cmd(c@),
        }
    }
}

/// The views of a sequence of scanner actions.
pub open spec fn act_views(acts: Seq<FrameAction>) -> Seq<FrameActView> {
    acts.map_values(|a: FrameAction| a@)
}

fn find_byte_exec(s: &[u8], b: u8) -> (r: Option<usize>)
    ensures
        match r {
            Some(i) => find_byte(s@, b) == Some(i as int),
            None => find_byte(s@, b) is None,
        },
{
    proof {
        lemma_find_byte(s@, b);
    }
    let mut i: usize = 0;
    while i < s.len()
        invariant
            i <= s@.len(),
            forall|j: int| 0 <= j < i ==> s@[j] != b,
        decreases s@.len() - i,
    {
        if s[i] == b {
            proof {
                lemma_find_byte(s@, b);
                match find_byte(s@, b) {
                    None => {
                        assert(false);
                    },
                    Some(k) => {
                        if k < i {
                            assert(s@[k] != b);
                        }
                        if k > i {
                            assert(s@[i as int] != b);
                        }
                    },
                }
            }
            return Some(i);
        }
        i += 1;
    }
    None
}

/// Removes the first `n` bytes of `buffer`.
fn drop_front(buffer: &mut Vec<u8>, n: usize)
    requires
        n <= old(buffer)@.len(),
    ensures
        final(buffer)@ == old(buffer)@.skip(n as int),
{
    let tail = buffer.split_off(n);
    *buffer = tail;
}

fn copy_range(buffer: &Vec<u8>, from: usize, to: usize) -> (r: Vec<u8>)
    requires
        from <= to <= buffer@.len(),
    ensures
        r@ == buffer@.subrange(from as int, to as int),
{
    let s = vstd::slice::slice_subrange(buffer.as_slice(), from, to);
    vstd::slice::slice_to_vec(s)
}

/// Splits freshly read bytes into the interrupt bytes they hold and
/// the rest: returns the bytes with every interrupt byte removed, and
/// how many interrupt bytes were seen.
pub fn remove_interrupts(input: &[u8]) -> (r: (Vec<u8>, usize))
    ensures
        r.0@ == strip_interrupts(input@),
        r.1 == interrupt_count(input@),
{
    let mut out: Vec<u8> = Vec::new();
    let mut count: usize = 0;
    let mut i: usize = 0;
    while i < input.len()
        invariant
            i <= input@.len(),
            out@ == strip_interrupts(input@.take(i as int)),
            count == interrupt_count(input@.take(i as int)),
            count <= i,
        decreases input@.len() - i,
    {
        proof {
            assert(input@.take(i as int).push(input@[i as int]) =~= input@.take(i as int + 1));
            assert(input@.take(i as int + 1).drop_last() =~= input@.take(i as int));
        }
        if input[i] == INTERRUPT {
            count += 1;
        } else {
            out.push(input[i]);
        }
        i += 1;
    }
    proof {
        assert(input@.take(input@.len() as int) =~= input@);
    }
    (out, count)
}

/// Runs the frame scanner over the whole buffer, leaving in the buffer
/// exactly what `frame_scan` leaves, and returning its actions and
/// whether a valid frame now awaits a response.
pub fn scan_frames(buffer: &mut Vec<u8>) -> (r: (Vec<FrameAction>, bool))
    ensures
        ({
            let out = frame_scan(old(buffer)@);
            &&& final(buffer)@ == out.rest
            &&& act_views(r.0@) == out.acts
            &&& r.1 == out.awaiting
        }),
{
    let ghost orig = buffer@;
    let mut acts: Vec<FrameAction> = Vec::new();
    proof {
        assert(act_views(acts@) + frame_scan(orig).acts =~= frame_scan(orig).acts);
    }
    loop
        invariant
            orig == old(buffer)@,
            act_views(acts@) + frame_scan(buffer@).acts == frame_scan(orig).acts,
            frame_scan(buffer@).rest == frame_scan(orig).rest,
            frame_scan(buffer@).awaiting == frame_scan(orig).awaiting,
        decreases buffer@.len(),
    {
        let ghost cur = buffer@;
        let blen = buffer.len();
        let d = find_byte_exec(buffer.as_slice(), FRAME_START);
        let h = find_byte_exec(buffer.as_slice(), FRAME_END);
        proof {
            lemma_find_byte(cur, FRAME_START);
            lemma_find_byte(cur, FRAME_END);
        }
        match (d, h) {
            (None, None) => {
                buffer.clear();
                proof {
                    assert(act_views(acts@) + frame_scan(cur).acts =~= act_views(acts@));
                }
                return (acts, false);
            },
            (Some(di), None) => {
                drop_front(buffer, di);
                proof {
                    assert(act_views(acts@) + frame_scan(cur).acts =~= act_views(acts@));
                }
                return (acts, false);
            },
            (None, Some(hi)) => {
                drop_front(buffer, hi + 1);
            },
            (Some(di), Some(hi)) => {
                if hi < di {
                    drop_front(buffer, hi + 1);
                } else if blen - hi < 3 {
                    drop_front(buffer, di);
                    proof {
                        assert(act_views(acts@) + frame_scan(cur).acts =~= act_views(acts@));
                    }
                    return (acts, false);
                } else {
                    let ghost prev = acts@;
                    let cmd = copy_range(buffer, di + 1, hi);
                    let expected = checksum(cmd.as_slice());
                    let given0 = buffer[hi + 1];
                    let given1 = buffer[hi + 2];
                    proof {
                        assert(cur.subrange(hi + 1, hi + 3) =~= seq![
                            cur[hi as int + 1],
                            cur[hi as int + 2],
                        ]);
                    }
                    if given0 == expected[0] && given1 == expected[1] {
                        let ghost c = cmd@;
                        acts.push(FrameAction::Ack);
                        acts.push(FrameAction::Command(cmd));
                        drop_front(buffer, hi + 3);
                        proof {
                            assert(cur.subrange(hi + 1, hi + 3) =~= checksum_text(c));
                            assert(act_views(acts@) =~= act_views(prev) + seq![
                                FrameActView::Ack,
                                FrameActView::Cmd(c),
                            ]);
                            assert(act_views(acts@) =~= act_views(prev) + frame_scan(cur).acts);
                        }
                        return (acts, true);
                    } else {
                        acts.push(FrameAction::Nak);
                        drop_front(buffer, hi + 3);
                        proof {
                            let tail = frame_scan(buffer@);
                            assert(cur.subrange(hi + 1, hi + 3) != checksum_text(
                                cur.subrange(di + 1, hi as int),
                            ));
                            assert(act_views(acts@) =~= act_views(prev).push(FrameActView::Nak));
                            assert(act_views(acts@) + tail.acts =~= act_views(prev) + (seq![
                                FrameActView::Nak,
                            ] + tail.acts));
                        }
                    }
                }
            },
        }
    }
}

/// The full wire form of a frame carrying command `cmd`: the start
/// marker, the command bytes, the end marker, and the two checksum
/// digits.
pub open spec fn frame_bytes(cmd: Seq<u8>) -> Seq<u8> {
    seq![FRAME_START] + cmd + seq![FRAME_END] + checksum_text(cmd)
}

/// `find_byte` pinned down from a witness: if `b` stands at `i` and
/// nowhere earlier, the scan finds exactly `i`.
pub proof fn lemma_find_byte_is(s: Seq<u8>, b: u8, i: int)
    requires
        0 <= i < s.len(),
        s[i] == b,
        forall|j: int| 0 <= j < i ==> s[j] != b,
    ensures
        find_byte(s, b) == Some(i),
{
    lemma_find_byte(s, b);
    match find_byte(s, b) {
        None => {
            assert(s[i] != b);
        },
        Some(k) => {
            if k < i {
                assert(s[k] != b);
            }
            if k > i {
                assert(s[i] != b);
            }
        },
    }
}

/// A byte sequence without interrupt bytes passes interrupt stripping
/// unchanged.
pub proof fn lemma_strip_no_interrupts(s: Seq<u8>)
    requires
        forall|i: int| 0 <= i < s.len() ==> s[i] != INTERRUPT,
    ensures
        strip_interrupts(s) == s,
        interrupt_count(s) == 0,
    decreases s.len(),
{
    if s.len() > 0 {
        assert(s.last() != INTERRUPT);
        lemma_strip_no_interrupts(s.drop_last());
        assert(s.drop_last().push(s.last()) =~= s);
    }
}

/// Interrupt stripping leaves no interrupt byte behind, and never
/// grows the sequence.
pub proof fn lemma_strip_interrupt_free(s: Seq<u8>)
    ensures
        forall|i: int| 0 <= i < strip_interrupts(s).len() ==> strip_interrupts(s)[i] != INTERRUPT,
        strip_interrupts(s).len() <= s.len(),
    decreases s.len(),
{
    if s.len() > 0 {
        lemma_strip_interrupt_free(s.drop_last());
    }
}

/// A frame whose trailing two bytes are the
/// checksum of its command is accepted, acknowledged, and forwarded
/// unchanged, whatever bytes follow it; scanning stops right after it.
pub proof fn lemma_scan_valid_frame(cmd: Seq<u8>, extra: Seq<u8>)
    requires
        !cmd.contains(FRAME_END),
    ensures
        ({
            let out = frame_scan(frame_bytes(cmd) + extra);
            &&& out.acts == seq![FrameActView::Ack, FrameActView::Cmd(cmd)]
            &&& out.rest == extra
            &&& out.awaiting
        }),
{
    let buf = frame_bytes(cmd) + extra;
    let h = 1 + cmd.len() as int;
    assert(buf[0] == FRAME_START);
    assert(buf[h] == FRAME_END);
    assert forall|j: int| 0 <= j < h implies buf[j] != FRAME_END by {
        if j > 0 {
            assert(buf[j] == cmd[j - 1]);
            if cmd[j - 1] == FRAME_END {
                assert(cmd.contains(FRAME_END));
            }
        }
    }
    lemma_find_byte_is(buf, FRAME_START, 0);
    lemma_find_byte_is(buf, FRAME_END, h);
    assert(buf.subrange(1, h) =~= cmd);
    assert(buf.subrange(h + 1, h + 3) =~= checksum_text(cmd));
    assert(frame_scan(buf).acts =~= seq![FrameActView::Ack, FrameActView::Cmd(cmd)]);
    assert(frame_scan(buf).rest =~= extra);
}

/// A frame whose trailing two bytes differ
/// from the checksum of its command draws one negative acknowledgment
/// and forwards nothing; scanning then goes on behind it.
pub proof fn lemma_scan_invalid_frame(cmd: Seq<u8>, tail: Seq<u8>, extra: Seq<u8>)
    requires
        !cmd.contains(FRAME_END),
        tail.len() == 2,
        tail != checksum_text(cmd),
    ensures
        ({
            let out = frame_scan(seq![FRAME_START] + cmd + seq![FRAME_END] + tail + extra);
            &&& out.acts == seq![FrameActView::Nak] + frame_scan(extra).acts
            &&& out.rest == frame_scan(extra).rest
            &&& out.awaiting == frame_scan(extra).awaiting
        }),
{
    let buf = seq![FRAME_START] + cmd + seq![FRAME_END] + tail + extra;
    let h = 1 + cmd.len() as int;
    assert(buf[0] == FRAME_START);
    assert(buf[h] == FRAME_END);
    assert forall|j: int| 0 <= j < h implies buf[j] != FRAME_END by {
        if j > 0 {
            assert(buf[j] == cmd[j - 1]);
            if cmd[j - 1] == FRAME_END {
                assert(cmd.contains(FRAME_END));
            }
        }
    }
    lemma_find_byte_is(buf, FRAME_START, 0);
    lemma_find_byte_is(buf, FRAME_END, h);
    assert(buf.subrange(1, h) =~= cmd);
    assert(buf.subrange(h + 1, h + 3) =~= tail);
    assert(buf.skip(h + 3) =~= extra);
}

/// Helper for the interrupt property: true of every scanner action
/// that is not a command carrying an interrupt byte.
pub open spec fn act_interrupt_free(a: FrameActView) -> bool {
    match a {
        FrameActView::Cmd(c) => forall|i: int| 0 <= i < c.len() ==> c[i] != INTERRUPT,
        _ => true,
    }
}

/// On an interrupt-free buffer the scanner emits only interrupt-free
/// commands and leaves only interrupt-free bytes behind.
pub proof fn lemma_scan_interrupt_free(buf: Seq<u8>)
    requires
        forall|i: int| 0 <= i < buf.len() ==> buf[i] != INTERRUPT,
    ensures
        forall|k: int|
            0 <= k < frame_scan(buf).acts.len() ==> act_interrupt_free(#[trigger] frame_scan(
                buf,
            ).acts[k]),
        forall|i: int|
            0 <= i < frame_scan(buf).rest.len() ==> #[trigger] frame_scan(buf).rest[i]
                != INTERRUPT,
    decreases buf.len(),
{
    lemma_find_byte(buf, FRAME_START);
    lemma_find_byte(buf, FRAME_END);
    let out = frame_scan(buf);
    match (find_byte(buf, FRAME_START), find_byte(buf, FRAME_END)) {
        (None, None) => {},
        (Some(d), None) => {
            assert forall|i: int| 0 <= i < out.rest.len() implies out.rest[i] != INTERRUPT by {
                assert(out.rest[i] == buf[d + i]);
            }
        },
        (None, Some(h)) => {
            let sub = buf.skip(h + 1);
            assert forall|i: int| 0 <= i < sub.len() implies sub[i] != INTERRUPT by {
                assert(sub[i] == buf[h + 1 + i]);
            }
            lemma_scan_interrupt_free(sub);
            assert forall|k: int| 0 <= k < out.acts.len() implies act_interrupt_free(
                #[trigger] out.acts[k],
            ) by {
                assert(act_interrupt_free(frame_scan(sub).acts[k]));
            }
            assert forall|i: int| 0 <= i < out.rest.len() implies #[trigger] out.rest[i]
                != INTERRUPT by {
                assert(frame_scan(sub).rest[i] != INTERRUPT);
            }
        },
        (Some(d), Some(h)) => {
            if h < d {
                let sub = buf.skip(h + 1);
                assert forall|i: int| 0 <= i < sub.len() implies sub[i] != INTERRUPT by {
                    assert(sub[i] == buf[h + 1 + i]);
                }
                lemma_scan_interrupt_free(sub);
                assert forall|k: int| 0 <= k < out.acts.len() implies act_interrupt_free(
                    #[trigger] out.acts[k],
                ) by {
                    assert(act_interrupt_free(frame_scan(sub).acts[k]));
                }
                assert forall|i: int| 0 <= i < out.rest.len() implies #[trigger] out.rest[i]
                    != INTERRUPT by {
                    assert(frame_scan(sub).rest[i] != INTERRUPT);
                }
            } else if buf.len() < h + 3 {
                assert forall|i: int| 0 <= i < out.rest.len() implies out.rest[i] != INTERRUPT by {
                    assert(out.rest[i] == buf[d + i]);
                }
            } else {
                let cmd = buf.subrange(d + 1, h);
                assert(forall|i: int| 0 <= i < cmd.len() ==> cmd[i] == buf[d + 1 + i]);
                assert(act_interrupt_free(FrameActView::Cmd(cmd)));
                if buf.subrange(h + 1, h + 3) == checksum_text(cmd) {
                    assert forall|i: int|
                        0 <= i < out.rest.len() implies out.rest[i] != INTERRUPT by {
                        assert(out.rest[i] == buf[h + 3 + i]);
                    }
                    assert(out.acts[0] == FrameActView::Ack);
                    assert(out.acts[1] == FrameActView::Cmd(cmd));
                } else {
                    let sub = buf.skip(h + 3);
                    assert forall|i: int| 0 <= i < sub.len() implies sub[i] != INTERRUPT by {
                        assert(sub[i] == buf[h + 3 + i]);
                    }
                    lemma_scan_interrupt_free(sub);
                    let tail = frame_scan(sub);
                    assert forall|k: int|
                        0 <= k < out.acts.len() implies act_interrupt_free(
                        #[trigger] out.acts[k]) by {
                        if k > 0 {
                            assert(out.acts[k] == tail.acts[k - 1]);
                            assert(act_interrupt_free(tail.acts[k - 1]));
                        }
                    }
                    assert forall|i: int| 0 <= i < out.rest.len() implies #[trigger] out.rest[i]
                        != INTERRUPT by {
                        assert(tail.rest[i] != INTERRUPT);
                    }
                }
            }
        },
    }
}

proof fn lemma_byte_sum_snoc(s: Seq<u8>, b: u8)
    ensures
        byte_sum(s.push(b)) == byte_sum(s) + b,
{
    assert(s.push(b).drop_last() =~= s);
}

/// Computes the two lowercase hex digits of a command's checksum.
pub fn checksum(cmd: &[u8]) -> (r: Vec<u8>)
    ensures
        r@ == checksum_text(cmd@),
{
    let mut acc: u8 = 0;
    let mut i: usize = 0;
    while i < cmd.len()
        invariant
            i <= cmd.len(),
            acc == byte_sum(cmd@.subrange(0, i as int)) % 256,
        decreases cmd.len() - i,
    {
        proof {
            lemma_byte_sum_snoc(cmd@.subrange(0, i as int), cmd@[i as int]);
            assert(cmd@.subrange(0, i as int).push(cmd@[i as int]) =~= cmd@.subrange(
                0,
                i as int + 1,
            ));
        }
        acc = (((acc as u16) + (cmd[i] as u16)) % 256) as u8;
        i += 1;
    }
    proof {
        assert(cmd@.subrange(0, cmd@.len() as int) =~= cmd@);
    }
    let hi = acc / 16;
    let lo = acc % 16;
    let mut r: Vec<u8> = Vec::new();
    r.push(if hi < 10 { 48 + hi } else { 87 + hi });
    r.push(if lo < 10 { 48 + lo } else { 87 + lo });
    proof {
        assert(r@ =~= checksum_text(cmd@));
    }
    r
}

} // verus!
