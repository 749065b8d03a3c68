use image::{DynamicImage, RgbImage};
use sb::{MediaSession, SessionState, StreamReader};

/// One complete JPEG image of the given size, as its raw bytes.
fn jpeg_frame(width: u32, height: u32, shade: u8) -> Vec<u8> {
    let img = RgbImage::from_pixel(width, height, image::Rgb([shade, shade, shade]));
    let mut cursor = std::io::Cursor::new(Vec::new());
    DynamicImage::ImageRgb8(img)
        .write_to(&mut cursor, image::ImageFormat::Jpeg)
        .unwrap();
    let bytes = cursor.into_inner();
    assert_eq!(&bytes[..2], &[0xFF, 0xD8]);
    assert_eq!(&bytes[bytes.len() - 2..], &[0xFF, 0xD9]);
    bytes
}

/// A marker-wrapped span that is not a decodable image.
fn malformed_frame() -> Vec<u8> {
    vec![0xFF, 0xD8, 0x00, 0x01, 0x02, 0x03, 0xFF, 0xD9]
}

#[test]
fn reader_finds_frame_across_chunks() {
    let mut reader = StreamReader::new();
    let frame = jpeg_frame(2, 2, 10);
    let (first, second) = frame.split_at(frame.len() / 2);

    // Half a frame completes nothing.
    let spans = reader.ingest(first);
    assert!(spans.is_empty());

    // The second half completes exactly the original span.
    let spans = reader.ingest(second);
    assert_eq!(spans.len(), 1);
    assert_eq!(spans[0], frame);
    assert_eq!(reader.buffered(), 0);
}

#[test]
fn reader_drops_garbage_before_frame_start() {
    let mut reader = StreamReader::new();
    let frame = jpeg_frame(1, 1, 200);
    let mut stream = vec![0x00, 0x42, 0x10];
    stream.extend_from_slice(&frame);

    let spans = reader.ingest(&stream);
    assert_eq!(spans.len(), 1);
    assert_eq!(spans[0], frame);
    assert_eq!(reader.buffered(), 0);
}

#[test]
fn end_marker_before_any_start_is_ignored() {
    let mut reader = StreamReader::new();
    let spans = reader.ingest(&[0xFF, 0xD9]);
    assert!(spans.is_empty());

    // The stray end marker completes nothing, in this chunk or a later one.
    let frame = jpeg_frame(1, 1, 50);
    let spans = reader.ingest(&frame);
    assert_eq!(spans.len(), 1);
    assert_eq!(spans[0], frame);
    assert_eq!(reader.buffered(), 0);
}

#[test]
fn reader_splits_back_to_back_frames() {
    let mut reader = StreamReader::new();
    let one = jpeg_frame(1, 1, 0);
    let two = jpeg_frame(2, 2, 255);
    let mut stream = one.clone();
    stream.extend_from_slice(&two);

    let spans = reader.ingest(&stream);
    assert_eq!(spans.len(), 2);
    assert_eq!(spans[0], one);
    assert_eq!(spans[1], two);
}

#[test]
fn reader_keeps_incomplete_tail() {
    let mut reader = StreamReader::new();
    let frame = jpeg_frame(1, 1, 80);
    let mut stream = frame.clone();
    stream.extend_from_slice(&[0xFF, 0xD8, 0x11]); // a frame that has begun

    let spans = reader.ingest(&stream);
    assert_eq!(spans.len(), 1);
    assert_eq!(reader.buffered(), 3);
}

#[test]
fn session_shows_latest_frame() {
    let mut session = MediaSession::new();
    session.on_spawn(true);
    assert_eq!(session.state(), SessionState::Playing);
    assert!(session.read_latest_frame().is_none());

    session.handle_chunk(&jpeg_frame(3, 5, 90));
    let shown = session.read_latest_frame().unwrap();
    assert_eq!((shown.width(), shown.height()), (3, 5));
}

#[test]
fn malformed_span_never_shows() {
    let mut session = MediaSession::new();
    session.on_spawn(true);

    // A stream of two marker-wrapped spans: the first malformed, the second
    // valid.  Exactly one frame is ever observed — the second.
    let mut stream = malformed_frame();
    stream.extend_from_slice(&jpeg_frame(4, 2, 30));
    session.handle_chunk(&stream);

    let shown = session.read_latest_frame().unwrap();
    assert_eq!((shown.width(), shown.height()), (4, 2));
}

#[test]
fn malformed_span_alone_shows_nothing() {
    let mut session = MediaSession::new();
    session.on_spawn(true);
    session.handle_chunk(&malformed_frame());
    assert!(session.read_latest_frame().is_none());
}

#[test]
fn three_frames_polled_ends_on_third() {
    let mut session = MediaSession::new();
    session.on_spawn(true);

    let sizes = [(1u32, 1u32), (2, 2), (3, 3)];
    for (i, (w, h)) in sizes.iter().enumerate() {
        session.handle_chunk(&jpeg_frame(*w, *h, (i as u8) * 60));
        // Poll after every delivery, as a renderer would.
        let shown = session.read_latest_frame().unwrap();
        assert_eq!((shown.width(), shown.height()), (*w, *h));
    }

    // Once the third frame is parsed, polling only ever sees the third.
    for _ in 0..3 {
        let shown = session.read_latest_frame().unwrap();
        assert_eq!((shown.width(), shown.height()), (3, 3));
    }
}

#[test]
fn pause_keeps_draining_but_freezes_frame() {
    let mut session = MediaSession::new();
    session.on_spawn(true);
    session.handle_chunk(&jpeg_frame(1, 1, 10));
    assert_eq!(session.state(), SessionState::Playing);

    session.toggle_pause();
    assert_eq!(session.state(), SessionState::Paused);

    // Frames delivered while paused are parsed and discarded: the pipe
    // keeps draining, so the buffer does not accumulate them.
    session.handle_chunk(&jpeg_frame(2, 2, 20));
    assert_eq!(session.buffered(), 0);
    let shown = session.read_latest_frame().unwrap();
    assert_eq!((shown.width(), shown.height()), (1, 1));

    // Resuming shows new frames again.
    session.toggle_pause();
    assert_eq!(session.state(), SessionState::Playing);
    session.handle_chunk(&jpeg_frame(2, 2, 20));
    let shown = session.read_latest_frame().unwrap();
    assert_eq!((shown.width(), shown.height()), (2, 2));
}

#[test]
fn stop_is_idempotent_and_total() {
    // Stop with nothing ever spawned: no error, state Stopped.
    let mut session = MediaSession::new();
    session.stop();
    assert_eq!(session.state(), SessionState::Stopped);

    // Stop twice in a row after playing: still Stopped, no error.
    session.on_spawn(true);
    session.stop();
    assert_eq!(session.state(), SessionState::Stopped);
    session.stop();
    assert_eq!(session.state(), SessionState::Stopped);
}

#[test]
fn no_frame_changes_after_stop() {
    let mut session = MediaSession::new();
    session.on_spawn(true);
    session.handle_chunk(&jpeg_frame(5, 4, 70));
    session.stop();
    assert!(!session.should_continue());

    // Even if bytes were still delivered, nothing changes any more.
    session.handle_chunk(&jpeg_frame(9, 9, 80));
    let shown = session.read_latest_frame().unwrap();
    assert_eq!((shown.width(), shown.height()), (5, 4));
    let shown = session.read_latest_frame().unwrap();
    assert_eq!((shown.width(), shown.height()), (5, 4));
}

#[test]
fn toggle_pause_while_stopped_is_noop() {
    let mut session = MediaSession::new();
    assert_eq!(session.state(), SessionState::Stopped);
    session.toggle_pause();
    assert_eq!(session.state(), SessionState::Stopped);
    assert!(session.read_latest_frame().is_none());
}

#[test]
fn failed_spawn_leaves_session_stopped() {
    let mut session = MediaSession::new();
    session.on_spawn(true);
    session.handle_chunk(&jpeg_frame(1, 1, 0));

    // A later spawn that fails leaves no partial session behind.
    session.on_spawn(false);
    assert_eq!(session.state(), SessionState::Stopped);
    assert!(session.read_latest_frame().is_none());
    assert!(!session.should_continue());
}
