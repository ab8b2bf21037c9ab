use qmlgreetd::transport::frame::{write_frame, FrameError, FrameReader, MAX_FRAME_LEN};

/// Bytes in memory, handed out at most `max` at a time, like a reader.
struct Chunked<'a> {
    data: &'a [u8],
    max: usize,
}

impl Chunked<'_> {
    fn new(data: &[u8]) -> Chunked<'_> {
        Chunked {
            data,
            max: usize::MAX,
        }
    }
}

/// Reads one frame from `source` the way the transport reads one from its
/// socket.
fn read_frame(source: &mut Chunked<'_>) -> Result<Option<Vec<u8>>, FrameError> {
    let mut reader = FrameReader::new();
    loop {
        let n = reader.wanted().min(source.max).min(source.data.len());
        let chunk = &source.data[..n];
        source.data = &source.data[n..];
        if let Some(outcome) = reader.feed(chunk) {
            return outcome;
        }
    }
}

fn encoded(payload: &[u8]) -> Vec<u8> {
    let mut out = Vec::new();
    write_frame(&mut out, payload).unwrap();
    out
}

#[test]
fn writes_a_native_endian_length_prefix() {
    let mut out = Vec::new();
    write_frame(&mut out, b"hello").unwrap();
    assert_eq!(&out[..4], &5u32.to_ne_bytes());
    assert_eq!(&out[4..], b"hello");
}

#[test]
fn reads_consecutive_frames() {
    let mut wire = encoded(b"one");
    wire.extend(encoded(b"two"));
    let mut reader = Chunked::new(&wire);

    assert_eq!(read_frame(&mut reader).unwrap().unwrap(), b"one");
    assert_eq!(read_frame(&mut reader).unwrap().unwrap(), b"two");
    assert!(read_frame(&mut reader).unwrap().is_none());
}

#[test]
fn reassembles_a_frame_split_across_reads() {
    let wire = encoded(b"split frame");
    let mut reader = Chunked {
        data: &wire,
        max: 1,
    };
    assert_eq!(read_frame(&mut reader).unwrap().unwrap(), b"split frame");
}

#[test]
fn rejects_an_oversized_frame() {
    let mut wire = (MAX_FRAME_LEN + 1).to_ne_bytes().to_vec();
    wire.extend_from_slice(b"x");
    let mut reader = Chunked::new(&wire);
    assert!(matches!(
        read_frame(&mut reader).unwrap_err(),
        FrameError::Oversized(_)
    ));
}

#[test]
fn detects_a_truncated_frame() {
    let mut wire = encoded(b"hello");
    wire.truncate(wire.len() - 2);
    let mut reader = Chunked::new(&wire);
    assert!(matches!(
        read_frame(&mut reader).unwrap_err(),
        FrameError::Truncated
    ));
}

#[test]
fn reports_a_clean_end_of_stream() {
    let mut reader = Chunked::new(&[]);
    assert!(read_frame(&mut reader).unwrap().is_none());
}

// Further scenarios.

#[test]
fn refuses_to_write_an_oversized_frame() {
    let mut out = vec![7u8];
    let payload = vec![0u8; MAX_FRAME_LEN as usize + 1];
    match write_frame(&mut out, &payload) {
        Err(FrameError::Oversized(len)) => assert_eq!(len, MAX_FRAME_LEN + 1),
        other => panic!("unexpected result: {other:?}"),
    }
    assert_eq!(out, vec![7u8]);
}

#[test]
fn a_frame_of_the_largest_size_round_trips() {
    let payload = vec![0xabu8; MAX_FRAME_LEN as usize];
    let wire = encoded(&payload);
    let mut reader = Chunked::new(&wire);
    assert_eq!(read_frame(&mut reader).unwrap().unwrap(), payload);
}

#[test]
fn a_partial_length_prefix_is_truncated() {
    let mut reader = Chunked::new(&[1, 0]);
    assert!(matches!(read_frame(&mut reader).unwrap_err(), FrameError::Truncated));
}

#[test]
fn an_empty_frame_reads_back_empty() {
    let wire = encoded(b"");
    let mut reader = Chunked {
        data: &wire,
        max: 3,
    };
    assert_eq!(read_frame(&mut reader).unwrap().unwrap(), Vec::<u8>::new());
    assert!(read_frame(&mut reader).unwrap().is_none());
}

#[test]
fn an_oversized_length_is_reported_before_its_payload() {
    let mut wire = u32::MAX.to_ne_bytes().to_vec();
    wire.extend_from_slice(b"tail");
    let mut reader = Chunked::new(&wire);
    match read_frame(&mut reader) {
        Err(FrameError::Oversized(len)) => assert_eq!(len, u32::MAX),
        other => panic!("unexpected result: {other:?}"),
    }
    assert_eq!(reader.data, b"tail");
}

#[test]
fn frame_errors_describe_themselves() {
    assert_eq!(
        FrameError::Oversized(1048577).message(),
        "frame of 1048577 bytes exceeds the limit"
    );
    assert_eq!(FrameError::Oversized(0).message(), "frame of 0 bytes exceeds the limit");
    assert_eq!(
        FrameError::Truncated.message(),
        "stream ended in the middle of a frame"
    );
    let io = std::io::Error::other("broken pipe");
    assert_eq!(FrameError::Io(io).message(), "i/o error: broken pipe");
}
