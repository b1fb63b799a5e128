//! Incremental decoder for Server-Sent-Event framing: a byte stream is
//! cut into lines at LF, CR, or CRLF, and a byte-order mark opening the
//! stream's first line is dropped. Each line is a `field:value` pair, a
//! comment, or blank, and a blank line ends a frame. `data` lines
//! accumulate the payload, `event` names the frame, `id` sets the
//! persistent event id, and a `retry` line whose value is a digit run
//! fitting the interval type is a reconnection-interval hint. A line
//! that is not valid UTF-8 is malformed. Frames whose data buffer is
//! empty produce nothing, as the protocol demands.

use vstd::prelude::*;
use crate::bytes::{find_byte, find_byte_exec, subvec, all_digits, digits_val, lemma_find_byte,
    lemma_digits_val_bound, lemma_digits_val_mono, clone_bytes, opt_bytes_view, push_all};
use crate::utf8::{is_utf8, validate_utf8};

verus! {

/// The bytes of the field name `data`.
pub open spec fn data_kw() -> Seq<u8> {
    seq![100u8, 97u8, 116u8, 97u8]
}

/// The bytes of the field name `event`.
pub open spec fn event_kw() -> Seq<u8> {
    seq![101u8, 118u8, 101u8, 110u8, 116u8]
}

/// The bytes of the field name `id`.
pub open spec fn id_kw() -> Seq<u8> {
    seq![105u8, 100u8]
}

/// The bytes of the field name `retry`.
pub open spec fn retry_kw() -> Seq<u8> {
    seq![114u8, 101u8, 116u8, 114u8, 121u8]
}

/// The bytes of the default event name `message`.
pub open spec fn message_kw() -> Seq<u8> {
    seq![109u8, 101u8, 115u8, 115u8, 97u8, 103u8, 101u8]
}

/// Index of the first line terminator, LF or CR, if any.
pub open spec fn find_eol(s: Seq<u8>) -> Option<int>
    decreases s.len(),
{
    if s.len() == 0 {
        None
    } else if s[0] == 10 || s[0] == 13 {
        Some(0int)
    } else {
        match find_eol(s.skip(1)) {
            None => None,
            Some(i) => Some(i + 1),
        }
    }
}

/// `find_eol` returns the least index holding a terminator, or `None`
/// when none occurs.
pub proof fn lemma_find_eol(s: Seq<u8>)
    ensures
        match find_eol(s) {
            None => forall|j: int| 0 <= j < s.len() ==> s[j] != 10 && s[j] != 13,
            Some(i) => 0 <= i < s.len() && (s[i] == 10 || s[i] == 13) && (forall|j: int|
                0 <= j < i ==> s[j] != 10 && s[j] != 13),
        },
    decreases s.len(),
{
    if s.len() != 0 && s[0] != 10 && s[0] != 13 {
        lemma_find_eol(s.skip(1));
        match find_eol(s.skip(1)) {
            None => {
                assert forall|j: int| 0 <= j < s.len() implies s[j] != 10 && s[j] != 13 by {
                    if j >= 1 {
                        assert(s[j] == s.skip(1)[j - 1]);
                    }
                }
            },
            Some(i) => {
                assert(s[i + 1] == s.skip(1)[i]);
                assert forall|j: int| 0 <= j < i + 1 implies s[j] != 10 && s[j] != 13 by {
                    if j >= 1 {
                        assert(s[j] == s.skip(1)[j - 1]);
                    }
                }
            },
        }
    }
}

/// First index of a line terminator in `v`, if any.
fn find_eol_exec(v: &Vec<u8>) -> (r: Option<usize>)
    ensures
        match r {
            None => find_eol(v@) is None,
            Some(i) => find_eol(v@) == Some(i as int),
        },
{
    let mut i: usize = 0;
    while i < v.len()
        invariant
            0 <= i <= v@.len(),
            forall|j: int| 0 <= j < i ==> v@[j] != 10 && v@[j] != 13,
        decreases v@.len() - i,
    {
        if v[i] == 10 || v[i] == 13 {
            proof {
                lemma_find_eol(v@);
                match find_eol(v@) {
                    None => {
                        assert(false);
                    },
                    Some(k) => {
                        if k < i as int {
                            assert(v@[k] != 10 && v@[k] != 13);
                        }
                        if k > i as int {
                            assert(v@[i as int] != 10 && v@[i as int] != 13);
                        }
                    },
                }
            }
            return Some(i);
        }
        i += 1;
    }
    proof {
        lemma_find_eol(v@);
    }
    None
}

/// Whether `s` opens with a UTF-8 byte-order mark.
pub open spec fn starts_with_bom(s: Seq<u8>) -> bool {
    s.len() >= 3 && s[0] == 0xEF && s[1] == 0xBB && s[2] == 0xBF
}

/// `s` without a single leading space, if one is there.
pub open spec fn strip_sp(s: Seq<u8>) -> Seq<u8> {
    if s.len() > 0 && s[0] == 32 {
        s.skip(1)
    } else {
        s
    }
}

/// `s` without a trailing LF, if one is there.
pub open spec fn strip_last_nl(s: Seq<u8>) -> Seq<u8> {
    if s.len() > 0 && s.last() == 10 {
        s.drop_last()
    } else {
        s
    }
}

/// What one line of a frame means.
pub enum LineAction {
    /// A blank line: the frame ends here.
    End,
    /// A comment, an unknown field, or an out-of-range retry value.
    Ignore,
    /// An `event` line: the frame name becomes this value.
    SetEvent(Seq<u8>),
    /// An `id` line without a NUL byte: the event id becomes this value.
    SetId(Seq<u8>),
    /// A `data` line: this value and an LF join the data buffer.
    Data(Seq<u8>),
    /// A `retry` line whose value is a digit run that fits `u64`.
    Retry(u64),
}

/// The meaning of one complete line (its terminator already removed).
pub open spec fn parse_line(line: Seq<u8>) -> LineAction {
    if line.len() == 0 {
        LineAction::End
    } else {
        match find_byte(line, 58) {
            None => if line == data_kw() {
                LineAction::Data(Seq::empty())
            } else {
                LineAction::Ignore
            },
            Some(c) => {
                let field = line.take(c);
                let value = line.skip(c + 1);
                if field.len() == 0 {
                    LineAction::Ignore
                } else if field == retry_kw() {
                    if value.len() >= 1 && all_digits(value) && digits_val(value) <= u64::MAX {
                        LineAction::Retry(digits_val(value) as u64)
                    } else {
                        LineAction::Ignore
                    }
                } else if field == event_kw() {
                    LineAction::SetEvent(strip_sp(value))
                } else if field == data_kw() {
                    LineAction::Data(strip_sp(value))
                } else if field == id_kw() {
                    if find_byte(value, 0) is None {
                        LineAction::SetId(strip_sp(value))
                    } else {
                        LineAction::Ignore
                    }
                } else {
                    LineAction::Ignore
                }
            },
        }
    }
}

/// The decoder's abstract state: buffered bytes not yet split into a
/// line, whether the stream's first line is still to come (a byte-order
/// mark is dropped only there), the persistent event id, the pending
/// frame name, and the pending data buffer.
pub struct DecView {
    pub buf: Seq<u8>,
    pub at_start: bool,
    pub last_id: Option<Seq<u8>>,
    pub event_type: Option<Seq<u8>>,
    pub data: Seq<u8>,
}

/// An abstract decoded event.
pub enum EventView {
    Message { id: Option<Seq<u8>>, name: Seq<u8>, data: Seq<u8> },
    Retry { ms: u64 },
}

/// The abstract outcome of one decoding step.
pub enum StepView {
    NeedMore,
    Progress,
    Event(EventView),
    Malformed,
}

/// The effect of one complete line on a decoder state whose buffer has
/// already been advanced past the line.
pub open spec fn line_effect(v: DecView, line: Seq<u8>) -> (DecView, StepView) {
    match parse_line(line) {
        LineAction::End => if v.data.len() == 0 {
            (
                DecView {
                    buf: v.buf,
                    at_start: v.at_start,
                    last_id: v.last_id,
                    event_type: None,
                    data: v.data,
                },
                StepView::Progress,
            )
        } else {
            (
                DecView {
                    buf: v.buf,
                    at_start: v.at_start,
                    last_id: v.last_id,
                    event_type: None,
                    data: Seq::empty(),
                },
                StepView::Event(
                    EventView::Message {
                        id: v.last_id,
                        name: match v.event_type {
                            None => message_kw(),
                            Some(n) => n,
                        },
                        data: strip_last_nl(v.data),
                    },
                ),
            )
        },
        LineAction::Retry(ms) => (v, StepView::Event(EventView::Retry { ms })),
        LineAction::SetEvent(n) => (
            DecView {
                buf: v.buf,
                at_start: v.at_start,
                last_id: v.last_id,
                event_type: Some(n),
                data: v.data,
            },
            StepView::Progress,
        ),
        LineAction::SetId(id) => (
            DecView {
                buf: v.buf,
                at_start: v.at_start,
                last_id: Some(id),
                event_type: v.event_type,
                data: v.data,
            },
            StepView::Progress,
        ),
        LineAction::Data(d) => (
            DecView {
                buf: v.buf,
                at_start: v.at_start,
                last_id: v.last_id,
                event_type: v.event_type,
                data: v.data + d + seq![10u8],
            },
            StepView::Progress,
        ),
        LineAction::Ignore => (v, StepView::Progress),
    }
}

/// One step of the decoder: if a complete line is buffered, consume it
/// and apply its effect; otherwise report that more bytes are needed.
pub open spec fn dec_step(v: DecView) -> (DecView, StepView) {
    match find_eol(v.buf) {
        None => (v, StepView::NeedMore),
        Some(i) => {
            if v.buf[i] == 13 && i + 1 == v.buf.len() {
                // A CR at the buffer's end may open a CRLF: wait.
                (v, StepView::NeedMore)
            } else {
                let tlen: int = if v.buf[i] == 13 && v.buf[i + 1] == 10 {
                    2
                } else {
                    1
                };
                let raw = v.buf.take(i);
                let line = if v.at_start && starts_with_bom(raw) {
                    raw.skip(3)
                } else {
                    raw
                };
                let v1 = DecView {
                    buf: v.buf.skip(i + tlen),
                    at_start: false,
                    last_id: v.last_id,
                    event_type: v.event_type,
                    data: v.data,
                };
                if !is_utf8(line) {
                    (v1, StepView::Malformed)
                } else {
                    line_effect(v1, line)
                }
            }
        },
    }
}

/// A decoded event: an application message with the id in force, or a
/// reconnection-interval hint.
pub enum SseEvent {
    Message { id: Option<Vec<u8>>, name: Vec<u8>, data: Vec<u8> },
    Retry { ms: u64 },
}

/// The outcome of one decoding step.
pub enum DecodeStep {
    /// No complete line is buffered yet.
    NeedMore,
    /// A line was consumed without completing an event.
    Progress,
    /// A complete event.
    Event(SseEvent),
    /// The consumed line was not valid UTF-8.
    Malformed,
}

pub open spec fn event_view(e: SseEvent) -> EventView {
    match e {
        SseEvent::Message { id, name, data } => EventView::Message {
            id: opt_bytes_view(id),
            name: name@,
            data: data@,
        },
        SseEvent::Retry { ms } => EventView::Retry { ms },
    }
}

pub open spec fn step_view(r: DecodeStep) -> StepView {
    match r {
        DecodeStep::NeedMore => StepView::NeedMore,
        DecodeStep::Progress => StepView::Progress,
        DecodeStep::Event(e) => StepView::Event(event_view(e)),
        DecodeStep::Malformed => StepView::Malformed,
    }
}

/// The incremental SSE frame decoder.
pub struct SseDecoder {
    buf: Vec<u8>,
    at_start: bool,
    last_id: Option<Vec<u8>>,
    event_type: Option<Vec<u8>>,
    data: Vec<u8>,
}

impl View for SseDecoder {
    type V = DecView;

    closed spec fn view(&self) -> DecView {
        DecView {
            buf: self.buf@,
            at_start: self.at_start,
            last_id: opt_bytes_view(self.last_id),
            event_type: opt_bytes_view(self.event_type),
            data: self.data@,
        }
    }
}

/// Drop one leading space, if there is one.
fn strip_sp_exec(v: Vec<u8>) -> (r: Vec<u8>)
    ensures
        r@ == strip_sp(v@),
{
    let ghost v0 = v@;
    let mut v = v;
    if v.len() > 0 && v[0] == 32 {
        v.remove(0);
        proof {
            assert(v@ =~= strip_sp(v0));
        }
    }
    v
}

/// Whether `v` holds exactly the field name `data`.
fn is_kw_data(v: &Vec<u8>) -> (r: bool)
    ensures
        r == (v@ == data_kw()),
{
    let r = v.len() == 4 && v[0] == 100 && v[1] == 97 && v[2] == 116 && v[3] == 97;
    proof {
        if r {
            assert(v@ =~= data_kw());
        }
    }
    r
}

/// Whether `v` holds exactly the field name `event`.
fn is_kw_event(v: &Vec<u8>) -> (r: bool)
    ensures
        r == (v@ == event_kw()),
{
    let r = v.len() == 5 && v[0] == 101 && v[1] == 118 && v[2] == 101 && v[3] == 110 && v[4]
        == 116;
    proof {
        if r {
            assert(v@ =~= event_kw());
        }
    }
    r
}

/// Whether `v` holds exactly the field name `id`.
fn is_kw_id(v: &Vec<u8>) -> (r: bool)
    ensures
        r == (v@ == id_kw()),
{
    let r = v.len() == 2 && v[0] == 105 && v[1] == 100;
    proof {
        if r {
            assert(v@ =~= id_kw());
        }
    }
    r
}

/// Whether `v` holds exactly the field name `retry`.
fn is_kw_retry(v: &Vec<u8>) -> (r: bool)
    ensures
        r == (v@ == retry_kw()),
{
    let r = v.len() == 5 && v[0] == 114 && v[1] == 101 && v[2] == 116 && v[3] == 114 && v[4]
        == 121;
    proof {
        if r {
            assert(v@ =~= retry_kw());
        }
    }
    r
}

/// Whether `v` holds exactly the event name `message`.
pub fn is_kw_message(v: &Vec<u8>) -> (r: bool)
    ensures
        r == (v@ == message_kw()),
{
    let r = v.len() == 7 && v[0] == 109 && v[1] == 101 && v[2] == 115 && v[3] == 115 && v[4]
        == 97 && v[5] == 103 && v[6] == 101;
    proof {
        if r {
            assert(v@ =~= message_kw());
        }
    }
    r
}

/// The event name `message` as bytes.
fn message_kw_vec() -> (r: Vec<u8>)
    ensures
        r@ == message_kw(),
{
    let mut r: Vec<u8> = Vec::new();
    r.push(109);
    r.push(101);
    r.push(115);
    r.push(115);
    r.push(97);
    r.push(103);
    r.push(101);
    proof {
        assert(r@ =~= message_kw());
    }
    r
}

/// The retry interval a digit-run value denotes, if it is one of at
/// most 18 digits.
fn parse_retry(value: &Vec<u8>) -> (r: Option<u64>)
    ensures
        match r {
            Some(ms) => value@.len() >= 1 && all_digits(value@) && ms as int == digits_val(
                value@,
            ),
            None => !(value@.len() >= 1 && all_digits(value@) && digits_val(value@)
                <= u64::MAX),
        },
{
    let n = value.len();
    if n == 0 {
        return None;
    }
    let mut acc: u64 = 0;
    let mut i: usize = 0;
    while i < n
        invariant
            0 <= i <= n,
            n == value@.len(),
            all_digits(value@.take(i as int)),
            acc as int == digits_val(value@.take(i as int)),
        decreases n - i,
    {
        let b = value[i];
        if b < 48 || b > 57 {
            proof {
                assert(!all_digits(value@));
            }
            return None;
        }
        let d = (b - 48) as u64;
        proof {
            let t1 = value@.take(i as int + 1);
            assert(t1.drop_last() =~= value@.take(i as int));
            assert(t1.last() == value@[i as int]);
            assert forall|j: int| 0 <= j < t1.len() implies crate::bytes::is_digit(t1[j]) by {
                if j < i as int {
                    assert(t1[j] == value@.take(i as int)[j]);
                } else {
                    assert(t1[j] == value@[i as int]);
                }
            }
            vstd::arithmetic::div_mod::lemma_fundamental_div_mod((u64::MAX - d) as int, 10);
        }
        if acc > (u64::MAX - d) / 10 {
            proof {
                let t1 = value@.take(i as int + 1);
                assert(digits_val(t1) == acc * 10 + d);
                assert(digits_val(t1) > u64::MAX);
                if all_digits(value@) {
                    lemma_digits_val_mono(value@, i as int + 1);
                    assert(digits_val(value@) > u64::MAX);
                }
            }
            return None;
        }
        proof {
            assert(digits_val(value@.take(i as int + 1)) == acc * 10 + d);
        }
        acc = acc * 10 + d;
        i += 1;
    }
    proof {
        assert(value@.take(n as int) =~= value@);
    }
    Some(acc)
}

impl SseDecoder {
    /// A decoder with nothing buffered.
    pub fn new() -> (r: SseDecoder)
        ensures
            r@.buf == Seq::<u8>::empty(),
            r@.at_start,
            r@.last_id is None,
            r@.event_type is None,
            r@.data == Seq::<u8>::empty(),
    {
        SseDecoder {
            buf: Vec::new(),
            at_start: true,
            last_id: None,
            event_type: None,
            data: Vec::new(),
        }
    }

    /// Hand the decoder the next chunk of the response body.
    pub fn feed(&mut self, chunk: &Vec<u8>)
        ensures
            final(self)@.buf == old(self)@.buf + chunk@,
            final(self)@.at_start == old(self)@.at_start,
            final(self)@.last_id == old(self)@.last_id,
            final(self)@.event_type == old(self)@.event_type,
            final(self)@.data == old(self)@.data,
    {
        push_all(&mut self.buf, chunk);
    }

    /// Consume one buffered line, if a complete one is there, and
    /// report its effect.
    pub fn step(&mut self) -> (r: DecodeStep)
        ensures
            dec_step(old(self)@) == (final(self)@, step_view(r)),
    {
        let eol = match find_eol_exec(&self.buf) {
            None => {
                return DecodeStep::NeedMore;
            },
            Some(i) => i,
        };
        proof {
            lemma_find_eol(self.buf@);
            assert(find_eol(self.buf@) == Some(eol as int));
            assert(eol < self.buf.len());
        }
        if self.buf[eol] == 13 && eol + 1 == self.buf.len() {
            return DecodeStep::NeedMore;
        }
        let tlen: usize = if self.buf[eol] == 13 && self.buf[eol + 1] == 10 {
            2
        } else {
            1
        };
        let mut line = subvec(&self.buf, 0, eol);
        proof {
            assert(old(self)@.buf.take(eol as int) =~= old(self)@.buf.subrange(0, eol as int));
        }
        if self.at_start && line.len() >= 3 && line[0] == 0xEF && line[1] == 0xBB && line[2]
            == 0xBF {
            let stripped = subvec(&line, 3, line.len());
            proof {
                assert(line@.subrange(3, line@.len() as int) =~= line@.skip(3));
            }
            line = stripped;
        }
        let rest = subvec(&self.buf, eol + tlen, self.buf.len());
        proof {
            assert(old(self)@.buf.skip(eol + tlen) =~= old(self)@.buf.subrange(
                eol + tlen,
                old(self)@.buf.len() as int,
            ));
        }
        self.buf = rest;
        self.at_start = false;
        if !validate_utf8(&line) {
            return DecodeStep::Malformed;
        }
        self.handle_line(line)
    }

    /// Apply the meaning of one complete, valid line.
    fn handle_line(&mut self, line: Vec<u8>) -> (r: DecodeStep)
        ensures
            line_effect(old(self)@, line@) == (final(self)@, step_view(r)),
    {
        if line.len() == 0 {
            let mut et: Option<Vec<u8>> = None;
            core::mem::swap(&mut et, &mut self.event_type);
            if self.data.len() == 0 {
                return DecodeStep::Progress;
            }
            let id = match &self.last_id {
                None => None,
                Some(x) => Some(clone_bytes(x)),
            };
            let name = match et {
                None => message_kw_vec(),
                Some(n) => n,
            };
            let mut d: Vec<u8> = Vec::new();
            core::mem::swap(&mut d, &mut self.data);
            if d.len() > 0 && d[d.len() - 1] == 10 {
                d.pop();
            }
            return DecodeStep::Event(SseEvent::Message { id, name, data: d });
        }
        match find_byte_exec(&line, 58) {
            None => {
                if is_kw_data(&line) {
                    self.data.push(10);
                    proof {
                        assert(self.data@ =~= old(self)@.data + Seq::<u8>::empty() + seq![10u8]);
                    }
                } else {
                }
                DecodeStep::Progress
            },
            Some(c) => {
                proof {
                    lemma_find_byte(line@, 58);
                    assert(find_byte(line@, 58) == Some(c as int));
                    assert(c < line.len());
                }
                let field = subvec(&line, 0, c);
                let value = subvec(&line, c + 1, line.len());
                proof {
                    assert(line@.take(c as int) =~= line@.subrange(0, c as int));
                    assert(line@.skip(c + 1) =~= line@.subrange(c + 1, line@.len() as int));
                }
                if field.len() == 0 {
                    DecodeStep::Progress
                } else if is_kw_retry(&field) {
                    match parse_retry(&value) {
                        Some(ms) => DecodeStep::Event(SseEvent::Retry { ms }),
                        None => DecodeStep::Progress,
                    }
                } else if is_kw_event(&field) {
                    let v = strip_sp_exec(value);
                    self.event_type = Some(v);
                    DecodeStep::Progress
                } else if is_kw_data(&field) {
                    let v = strip_sp_exec(value);
                    push_all(&mut self.data, &v);
                    self.data.push(10);
                    proof {
                        assert(self.data@ =~= old(self)@.data + v@ + seq![10u8]);
                    }
                    DecodeStep::Progress
                } else if is_kw_id(&field) {
                    match find_byte_exec(&value, 0) {
                        Some(_) => DecodeStep::Progress,
                        None => {
                            let v = strip_sp_exec(value);
                            self.last_id = Some(v);
                            DecodeStep::Progress
                        },
                    }
                } else {
                    DecodeStep::Progress
                }
            },
        }
    }
}

} // verus!
