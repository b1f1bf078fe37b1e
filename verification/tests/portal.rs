use mudhuts::portal::capture::{
    check_globals, convert_to_rgba, CaptureError, CapturedImage, FrameCapture, FrameEvent,
    PixelFormat, SessionCapture, SessionEvent,
};
use mudhuts::portal::pipewire_stream::{fill, frame_chunk, StreamData, StreamState};
use mudhuts::portal::screencast::{
    after_node, after_size, NodeReply, ScreenCastBackend, SizeReply, StartStep,
};
use mudhuts::portal::screenshot::{
    encode_png, respond, screenshot_dir, screenshot_path, Outcome, OTHER_ERROR, SUCCESS,
};

#[test]
fn a_capture_needs_every_global() {
    assert_eq!(check_globals(true, true, true, true), Ok(()));
    assert_eq!(check_globals(false, true, true, true), Err(CaptureError::NoOutput));
    assert_eq!(check_globals(true, false, true, true), Err(CaptureError::NoSourceManager));
    assert_eq!(check_globals(true, true, false, true), Err(CaptureError::NoCaptureManager));
    assert_eq!(check_globals(true, true, true, false), Err(CaptureError::NoShm));
}

fn announced(width: u32, height: u32, formats: &[PixelFormat]) -> SessionCapture {
    let mut session = SessionCapture::default();
    session.event(SessionEvent::BufferSize { width, height });
    for &format in formats {
        session.event(SessionEvent::ShmFormat(format));
    }
    session.event(SessionEvent::Done);
    session
}

#[test]
fn a_session_plans_its_buffer_once_everything_was_announced() {
    let mut session = SessionCapture::default();
    assert_eq!(session.ready(), Ok(false));
    session.event(SessionEvent::Stopped);
    assert_eq!(session.ready(), Err(CaptureError::Stopped));

    let session = announced(16, 9, &[PixelFormat::Xrgb8888, PixelFormat::Argb8888]);
    assert_eq!(session.ready(), Ok(true));
    let plan = session.plan().unwrap();
    assert_eq!((plan.width, plan.height, plan.stride, plan.size), (16, 9, 64, 576));
    assert_eq!(plan.format, PixelFormat::Argb8888);

    assert!(matches!(announced(16, 9, &[]).plan(), Err(CaptureError::NoFormat)));
    assert!(matches!(announced(0, 9, &[PixelFormat::Argb8888]).plan(), Err(CaptureError::ZeroSize)));
}

#[test]
fn a_frame_is_ready_or_failed() {
    let mut frame = FrameCapture::default();
    assert_eq!(frame.outcome(), None);
    frame.event(FrameEvent::Ready);
    assert_eq!(frame.outcome(), Some(true));
    let mut failed = FrameCapture::default();
    failed.event(FrameEvent::Failed("gone".to_string()));
    assert_eq!(failed.outcome(), Some(false));
}

#[test]
fn pixels_are_reordered_and_opaque_where_there_is_no_alpha() {
    let buf = [3, 2, 1, 9, 0, 0, 0, 0, 6, 5, 4, 8, 0, 0, 0, 0];
    assert_eq!(
        convert_to_rgba(&buf, 1, 2, 8, PixelFormat::Argb8888),
        Ok(vec![1, 2, 3, 9, 4, 5, 6, 8])
    );
    assert_eq!(
        convert_to_rgba(&buf, 1, 2, 8, PixelFormat::Xrgb8888),
        Ok(vec![1, 2, 3, 255, 4, 5, 6, 255])
    );
    assert_eq!(
        convert_to_rgba(&buf[..11], 1, 2, 8, PixelFormat::Argb8888),
        Err(CaptureError::ShortBuffer)
    );
}

#[test]
fn a_screenshot_is_written_as_png() {
    let image = CapturedImage { width: 2, height: 1, rgba: vec![1, 2, 3, 255, 4, 5, 6, 255] };
    let bytes = encode_png(&image).unwrap();
    assert_eq!(&bytes[..8], &[0x89, b'P', b'N', b'G', 0x0d, 0x0a, 0x1a, 0x0a]);
    let mut reader = png::Decoder::new(std::io::Cursor::new(bytes)).read_info().unwrap();
    let mut out = vec![0; 8];
    let info = reader.next_frame(&mut out).unwrap();
    assert_eq!((info.width, info.height), (2, 1));
    assert_eq!(out, image.rgba);
    let short = CapturedImage { width: 2, height: 1, rgba: vec![1, 2, 3] };
    assert!(encode_png(&short).is_err());
}

#[test]
fn screenshots_lie_in_the_cache() {
    let some = |s: &str| Some(s.to_string());
    assert_eq!(screenshot_dir(&some("/c"), &None), "/c/mudhuts-portal/screenshots");
    assert_eq!(screenshot_dir(&None, &some("/home/u")), "/home/u/.cache/mudhuts-portal/screenshots");
    assert_eq!(screenshot_path("/c", 17), "/c/screenshot-17.png");
    assert_eq!(respond(&Outcome::NotCaptured), (OTHER_ERROR, None));
    assert_eq!(respond(&Outcome::NotSaved), (OTHER_ERROR, None));
    assert_eq!(respond(&Outcome::Saved("/c/a.png".to_string())), (SUCCESS, some("file:///c/a.png")));
}

#[test]
fn a_cast_starts_once_per_session() {
    let mut casts = ScreenCastBackend::new();
    assert_eq!((casts.version(), casts.available_source_types(), casts.available_cursor_modes()), (4, 1, 1));
    assert!(matches!(casts.start("/s"), StartStep::Fail { .. }));
    assert_eq!(casts.create_session("/s", true), 0);
    assert_eq!(casts.select_sources("/s", Some(1), None), 0);
    assert!(matches!(casts.start("/s"), StartStep::AskForSize));
    assert!(matches!(after_size(SizeReply::Size(640, 480)), StartStep::StartStream(640, 480)));
    assert!(matches!(after_size(SizeReply::Failed), StartStep::Fail { .. }));
    assert!(matches!(after_node(NodeReply::Node(7)), StartStep::Keep(7)));
    assert!(matches!(after_node(NodeReply::TimedOut), StartStep::Fail { .. }));
    let info = casts.finish_start("/s", 70, 7, 640, 480).ok().unwrap();
    assert_eq!((info.node_id, info.size), (7, (640, 480)));
    assert!(matches!(casts.start("/s"), StartStep::Fail { .. }));
    assert_eq!(casts.close("/s"), Some(70));
    assert_eq!(casts.close("/s"), None);
    assert!(matches!(casts.start("/s"), StartStep::Fail { .. }));
}

#[test]
fn a_stream_reports_its_node_once() {
    let mut stream = StreamData::new();
    assert_eq!(stream.state_changed(StreamState::Other, 7), None);
    assert_eq!(stream.state_changed(StreamState::Paused, 7), Some(Ok(7)));
    assert_eq!(stream.state_changed(StreamState::Paused, 7), None);
    let mut broken = StreamData::new();
    assert_eq!(
        broken.state_changed(StreamState::Error("bad".to_string()), 7),
        Some(Err("bad".to_string()))
    );
}

#[test]
fn a_frame_fills_as_much_of_its_buffer_as_there_is() {
    let image = CapturedImage { width: 2, height: 1, rgba: vec![1, 2, 3, 4, 5, 6, 7, 8] };
    let mut buf = vec![0; 10];
    fill(&mut buf, &image);
    assert_eq!(buf, vec![1, 2, 3, 4, 5, 6, 7, 8, 0, 0]);
    let mut short = vec![0; 3];
    fill(&mut short, &image);
    assert_eq!(short, vec![1, 2, 3]);
    let chunk = frame_chunk(10, &image);
    assert_eq!((chunk.offset, chunk.stride, chunk.size), (0, 8, 8));
    assert_eq!(frame_chunk(3, &image).size, 3);
}
