use stellar_horizon_client::error::Error;
use stellar_horizon_client::stream::{HorizonHttpStream, StreamStep};

/// Drive the machine until it yields, fails, or runs out of buffered
/// lines, collecting every yielded payload.
fn poll_until_blocked(st: &mut HorizonHttpStream) -> (Vec<Vec<u8>>, Vec<Error>) {
    let mut items = Vec::new();
    let mut errors = Vec::new();
    loop {
        match st.poll_event() {
            StreamStep::NotReady => return (items, errors),
            StreamStep::Internal => {}
            StreamStep::Yield(p) => items.push(p),
            StreamStep::Failed(e) => {
                errors.push(e);
                return (items, errors);
            }
        }
    }
}

#[test]
fn stream_yields_message_and_resumes_with_cursor() {
    let mut st = HorizonHttpStream::new();
    let cursor = st.start_connect();
    assert!(cursor.is_none());
    st.on_response(200).expect("a success status opens the decoder");
    st.feed_body(&b"id:1\nevent:message\ndata:{\"x\":1}\n\n".to_vec());
    let (items, errors) = poll_until_blocked(&mut st);
    assert!(errors.is_empty());
    assert_eq!(items, vec![b"{\"x\":1}".to_vec()]);
    // The server closes the connection; the reconnect carries the id.
    st.on_body_end();
    let cursor = st.start_connect();
    assert_eq!(cursor, Some(b"1".to_vec()));
}

#[test]
fn stream_skips_frames_with_other_names() {
    let mut st = HorizonHttpStream::new();
    st.start_connect();
    st.on_response(200).expect("success");
    st.feed_body(&b"id:7\nevent:foo\ndata:{\"y\":2}\n\n".to_vec());
    let (items, errors) = poll_until_blocked(&mut st);
    assert!(items.is_empty());
    assert!(errors.is_empty());
    // The cursor still follows the skipped frame's id.
    assert_eq!(st.last_id(), Some(b"7".to_vec()));
}

#[test]
fn stream_cursor_unchanged_without_id() {
    let mut st = HorizonHttpStream::new();
    st.start_connect();
    st.on_response(200).expect("success");
    st.feed_body(&b"id:3\ndata:a\n\ndata:b\n\n".to_vec());
    let (items, _) = poll_until_blocked(&mut st);
    assert_eq!(items, vec![b"a".to_vec(), b"b".to_vec()]);
    // The id persists across frames within one connection.
    assert_eq!(st.last_id(), Some(b"3".to_vec()));
}

#[test]
fn stream_surfaces_one_decode_error_then_reconnects() {
    let mut st = HorizonHttpStream::new();
    st.start_connect();
    st.on_response(200).expect("success");
    st.feed_body(&b"id:9\ndata:x\n\n".to_vec());
    let (items, errors) = poll_until_blocked(&mut st);
    assert_eq!(items, vec![b"x".to_vec()]);
    assert!(errors.is_empty());
    // A line that is not UTF-8 is malformed: exactly one error item.
    st.feed_body(&vec![0xff, 0xfe, 0x0a]);
    match st.poll_event() {
        StreamStep::Failed(Error::StreamDecodeError) => {}
        _ => panic!("malformed framing must surface a stream decode error"),
    }
    // The next poll cycle reconnects, keeping the cursor.
    let cursor = st.start_connect();
    assert_eq!(cursor, Some(b"9".to_vec()));
}

#[test]
fn stream_non_success_status_is_a_server_error() {
    let mut st = HorizonHttpStream::new();
    st.start_connect();
    match st.on_response(500) {
        Err(Error::ServerError) => {}
        _ => panic!("a non-success status on the stream is a server error"),
    }
    // The machine is back at the connect state.
    assert!(st.start_connect().is_none());
}

#[test]
fn stream_retry_hint_yields_nothing() {
    let mut st = HorizonHttpStream::new();
    st.start_connect();
    st.on_response(200).expect("success");
    st.feed_body(&b"retry:100\ndata:z\n\n".to_vec());
    let (items, errors) = poll_until_blocked(&mut st);
    assert_eq!(items, vec![b"z".to_vec()]);
    assert!(errors.is_empty());
}

#[test]
fn stream_sse_field_details() {
    let mut st = HorizonHttpStream::new();
    st.start_connect();
    st.on_response(200).expect("success");
    // A comment, an unknown field, an id holding NUL (ignored), a
    // carriage-return line end, and two data lines joined by one LF.
    st.feed_body(&b":hello\nfoo:bar\nid:a\x00b\nid: 2\r\ndata: a\ndata:b\n\n".to_vec());
    let (items, errors) = poll_until_blocked(&mut st);
    assert!(errors.is_empty());
    assert_eq!(items, vec![b"a\nb".to_vec()]);
    assert_eq!(st.last_id(), Some(b"2".to_vec()));
}

#[test]
fn stream_empty_frame_yields_nothing() {
    let mut st = HorizonHttpStream::new();
    st.start_connect();
    st.on_response(200).expect("success");
    st.feed_body(&b"event:message\n\ndata:q\n\n".to_vec());
    let (items, errors) = poll_until_blocked(&mut st);
    assert!(errors.is_empty());
    // A frame without data dispatches nothing, and clears the name.
    assert_eq!(items, vec![b"q".to_vec()]);
}

#[test]
fn stream_partial_frames_wait_for_more_bytes() {
    let mut st = HorizonHttpStream::new();
    st.start_connect();
    st.on_response(200).expect("success");
    st.feed_body(&b"data:{\"x\"".to_vec());
    let (items, _) = poll_until_blocked(&mut st);
    assert!(items.is_empty());
    st.feed_body(&b":1}\n\n".to_vec());
    let (items, _) = poll_until_blocked(&mut st);
    assert_eq!(items, vec![b"{\"x\":1}".to_vec()]);
}

#[test]
fn stream_accepts_cr_and_crlf_line_ends() {
    let mut st = HorizonHttpStream::new();
    st.start_connect();
    st.on_response(200).expect("success");
    st.feed_body(&b"id:6\r\ndata:w\r\n\r\n".to_vec());
    let (items, errors) = poll_until_blocked(&mut st);
    assert!(errors.is_empty());
    assert_eq!(items, vec![b"w".to_vec()]);
    assert_eq!(st.last_id(), Some(b"6".to_vec()));
    // Bare CR ends a line too; one at the buffer's end waits for a
    // possible LF.
    st.feed_body(&b"id:5\rdata:q\r\r".to_vec());
    let (items, _) = poll_until_blocked(&mut st);
    assert!(items.is_empty());
    st.feed_body(&b"\n\n".to_vec());
    let (items, errors) = poll_until_blocked(&mut st);
    assert!(errors.is_empty());
    assert_eq!(items, vec![b"q".to_vec()]);
    assert_eq!(st.last_id(), Some(b"5".to_vec()));
}

#[test]
fn stream_strips_byte_order_mark_on_first_line() {
    let mut st = HorizonHttpStream::new();
    st.start_connect();
    st.on_response(200).expect("success");
    st.feed_body(&b"\xEF\xBB\xBFdata:m\n\n".to_vec());
    let (items, errors) = poll_until_blocked(&mut st);
    assert!(errors.is_empty());
    assert_eq!(items, vec![b"m".to_vec()]);
}

#[test]
fn stream_retry_values_up_to_the_interval_type() {
    let mut st = HorizonHttpStream::new();
    st.start_connect();
    st.on_response(200).expect("success");
    // The first hint fits the interval type, the second does not and
    // is ignored; neither yields an item.
    st.feed_body(&b"retry:18446744073709551615\nretry:18446744073709551616\ndata:r\n\n".to_vec());
    let (items, errors) = poll_until_blocked(&mut st);
    assert!(errors.is_empty());
    assert_eq!(items, vec![b"r".to_vec()]);
}
