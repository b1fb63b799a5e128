//! The resumable event stream's state machine. One connection at a
//! time is opened, its body is decoded frame by frame, and on any end
//! of the connection the stream reconnects, sending the id of the last
//! delivered event as the cursor so the server resumes the log there.
//! The caller drives the machine: it opens the connection
//! `start_connect` asks for, hands the response status and body chunks
//! back in, and polls for events.

use vstd::prelude::*;
use crate::bytes::{clone_bytes, opt_bytes_view};
use crate::error::Error;
use crate::sse::{SseDecoder, DecView, dec_step, StepView, EventView, DecodeStep, SseEvent,
    message_kw, is_kw_message};
use crate::status::{classify_status, status_kind, StatusKind};

verus! {

/// Where the stream stands between polls: it holds a pending
/// connection or an active decoder, never both.
pub enum StreamState {
    /// No connection: the next poll must open one.
    NeedConnection,
    /// A connection was opened; its response has not been handed in.
    AwaitingResponse,
    /// A response body is being decoded frame by frame.
    AwaitingEvent(SseDecoder),
}

/// The abstract stream state.
pub enum StateView {
    NeedConnection,
    AwaitingResponse,
    AwaitingEvent(DecView),
}

/// A resumable event-stream connection.
pub struct HorizonHttpStream {
    last_id: Option<Vec<u8>>,
    state: StreamState,
}

/// The abstract stream: the cursor and the connection state.
pub struct StreamView {
    pub last_id: Option<Seq<u8>>,
    pub state: StateView,
}

impl View for HorizonHttpStream {
    type V = StreamView;

    closed spec fn view(&self) -> StreamView {
        StreamView {
            last_id: opt_bytes_view(self.last_id),
            state: match self.state {
                StreamState::NeedConnection => StateView::NeedConnection,
                StreamState::AwaitingResponse => StateView::AwaitingResponse,
                StreamState::AwaitingEvent(d) => StateView::AwaitingEvent(d@),
            },
        }
    }
}

/// What one poll of the stream produced.
pub enum StreamStep {
    /// The transport must produce more body bytes first.
    NotReady,
    /// A line was consumed without yielding an item; poll again.
    Internal,
    /// The payload of a `message` event, in server order.
    Yield(Vec<u8>),
    /// Malformed framing: surface this error once; the next poll
    /// reconnects.
    Failed(Error),
}

impl HorizonHttpStream {
    /// A stream that has not connected yet and has seen no event.
    pub fn new() -> (r: HorizonHttpStream)
        ensures
            r@.last_id is None,
            r@.state is NeedConnection,
    {
        HorizonHttpStream { last_id: None, state: StreamState::NeedConnection }
    }

    /// The cursor: the id of the most recently delivered event.
    pub fn last_id(&self) -> (r: Option<Vec<u8>>)
        ensures
            opt_bytes_view(r) == self@.last_id,
    {
        match &self.last_id {
            None => None,
            Some(x) => Some(clone_bytes(x)),
        }
    }

    /// Open a connection: the stream moves to awaiting the response
    /// and hands back the cursor to send as the `Last-Event-Id`
    /// header, none before the first event. The cursor never changes
    /// here.
    pub fn start_connect(&mut self) -> (r: Option<Vec<u8>>)
        requires
            old(self)@.state is NeedConnection,
        ensures
            final(self)@.state is AwaitingResponse,
            final(self)@.last_id == old(self)@.last_id,
            opt_bytes_view(r) == old(self)@.last_id,
    {
        self.state = StreamState::AwaitingResponse;
        match &self.last_id {
            None => None,
            Some(x) => Some(clone_bytes(x)),
        }
    }

    /// The transport failed before a response arrived: surface one
    /// transport error; the next poll reconnects with the same cursor.
    pub fn on_transport_error(&mut self) -> (e: Error)
        requires
            old(self)@.state is AwaitingResponse,
        ensures
            final(self)@.state is NeedConnection,
            final(self)@.last_id == old(self)@.last_id,
            e is TransportError,
    {
        self.state = StreamState::NeedConnection;
        Error::TransportError
    }

    /// The response arrived: a success status starts a fresh frame
    /// decoder; any other status is surfaced as a server error, and
    /// the stream reconnects on the next poll. The cursor never
    /// changes here.
    pub fn on_response(&mut self, status: u16) -> (r: Result<(), Error>)
        requires
            old(self)@.state is AwaitingResponse,
        ensures
            final(self)@.last_id == old(self)@.last_id,
            status_kind(status as int) is Success ==> r is Ok && (final(self)@.state matches
                StateView::AwaitingEvent(d) && d.buf == Seq::<u8>::empty() && d.at_start
                && d.last_id is None && d.event_type is None && d.data == Seq::<u8>::empty()),
            !(status_kind(status as int) is Success) ==> (r matches Err(e) && e is ServerError)
                && final(self)@.state is NeedConnection,
    {
        match classify_status(status) {
            StatusKind::Success => {
                self.state = StreamState::AwaitingEvent(SseDecoder::new());
                Ok(())
            },
            _ => {
                self.state = StreamState::NeedConnection;
                Err(Error::ServerError)
            },
        }
    }

    /// Hand the stream the next chunk of the response body.
    pub fn feed_body(&mut self, chunk: &Vec<u8>)
        requires
            old(self)@.state is AwaitingEvent,
        ensures
            final(self)@.last_id == old(self)@.last_id,
            ({
                let d0 = old(self)@.state->AwaitingEvent_0;
                final(self)@.state matches StateView::AwaitingEvent(d) && d.buf == d0.buf + chunk@
                    && d.at_start == d0.at_start && d.last_id == d0.last_id && d.event_type
                    == d0.event_type && d.data == d0.data
            }),
    {
        let mut st = StreamState::NeedConnection;
        core::mem::swap(&mut st, &mut self.state);
        match st {
            StreamState::AwaitingEvent(mut d) => {
                d.feed(chunk);
                self.state = StreamState::AwaitingEvent(d);
            },
            _ => {
                proof {
                    assert(false);
                }
            },
        }
    }

    /// The body ended cleanly: reconnect on the next poll, resuming
    /// from the current cursor so no event is skipped.
    pub fn on_body_end(&mut self)
        requires
            old(self)@.state is AwaitingEvent,
        ensures
            final(self)@.state is NeedConnection,
            final(self)@.last_id == old(self)@.last_id,
    {
        self.state = StreamState::NeedConnection;
    }

    /// Decode one step. A `message` event's payload is yielded and its
    /// id, when it carries one, becomes the cursor; the cursor is
    /// unchanged otherwise, and once set it is only ever replaced,
    /// never cleared. Events under any other name, and retry hints,
    /// are consumed without yielding. Malformed framing is surfaced
    /// exactly once and forces a reconnect on the next poll.
    pub fn poll_event(&mut self) -> (r: StreamStep)
        requires
            old(self)@.state is AwaitingEvent,
        ensures
            old(self)@.last_id is Some ==> final(self)@.last_id is Some,
            ({
                let d0 = old(self)@.state->AwaitingEvent_0;
                let d1 = dec_step(d0).0;
                let keep = (final(self)@.state matches StateView::AwaitingEvent(d) && d == d1);
                let same_cursor = final(self)@.last_id == old(self)@.last_id;
                match dec_step(d0).1 {
                    StepView::NeedMore => r is NotReady && same_cursor && keep,
                    StepView::Progress => r is Internal && same_cursor && keep,
                    StepView::Malformed => (r matches StreamStep::Failed(e)
                        && e is StreamDecodeError) && same_cursor
                        && final(self)@.state is NeedConnection,
                    StepView::Event(ev) => match ev {
                        EventView::Retry { ms } => r is Internal && same_cursor && keep,
                        EventView::Message { id, name, data } => {
                            &&& keep
                            &&& final(self)@.last_id == (if id is Some {
                                id
                            } else {
                                old(self)@.last_id
                            })
                            &&& (name == message_kw() ==> (r matches StreamStep::Yield(p) && p@
                                == data))
                            &&& (name != message_kw() ==> r is Internal)
                        },
                    },
                }
            }),
    {
        let mut st = StreamState::NeedConnection;
        core::mem::swap(&mut st, &mut self.state);
        match st {
            StreamState::AwaitingEvent(mut d) => {
                let step = d.step();
                match step {
                    DecodeStep::NeedMore => {
                        self.state = StreamState::AwaitingEvent(d);
                        StreamStep::NotReady
                    },
                    DecodeStep::Progress => {
                        self.state = StreamState::AwaitingEvent(d);
                        StreamStep::Internal
                    },
                    DecodeStep::Malformed => StreamStep::Failed(Error::StreamDecodeError),
                    DecodeStep::Event(SseEvent::Retry { ms: _ }) => {
                        self.state = StreamState::AwaitingEvent(d);
                        StreamStep::Internal
                    },
                    DecodeStep::Event(SseEvent::Message { id, name, data }) => {
                        if let Some(idv) = id {
                            self.last_id = Some(idv);
                        }
                        self.state = StreamState::AwaitingEvent(d);
                        if is_kw_message(&name) {
                            StreamStep::Yield(data)
                        } else {
                            StreamStep::Internal
                        }
                    },
                }
            },
            _ => {
                proof {
                    assert(false);
                }
                StreamStep::NotReady
            },
        }
    }
}

} // verus!
