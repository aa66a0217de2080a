use edifact_rs::{from_bytes_with_config, ChunkedReader, EdifactError, ReadStep, ReaderConfig, Segment};

/// Feeds `input` in chunks of `size` bytes, re-feeding what a call did not
/// take; returns the segments, the end, and the most bytes ever held.
fn feed_in_chunks(input: &[u8], size: usize, config: ReaderConfig) -> (Vec<Segment>, Option<EdifactError>) {
    let mut reader = ChunkedReader::new(config);
    let mut out = Vec::new();
    let mut pos = 0;
    loop {
        let end = (pos + size).min(input.len());
        let at_end = end == input.len();
        let (step, taken) = reader.feed(&input[pos..end], at_end);
        assert!(taken <= end - pos);
        pos += taken;
        match step {
            ReadStep::Yield(seg) => out.push(seg),
            ReadStep::Fail(e) => return (out, Some(e)),
            ReadStep::Done => return (out, None),
            ReadStep::NeedInput => assert_eq!(pos, end, "more input asked for while a chunk was left"),
        }
    }
}

fn whole(input: &[u8], config: ReaderConfig) -> (Vec<Segment>, Option<EdifactError>) {
    from_bytes_with_config(input, config).drain()
}

fn agrees_for_every_chunking(input: &[u8], config: ReaderConfig) {
    let expected = whole(input, config);
    for size in 1..=input.len().max(1) + 1 {
        assert_eq!(feed_in_chunks(input, size, config), expected, "chunk size {size}");
    }
}

#[test]
fn chunked_reader_matches_whole_reading() {
    let input = b"UNB+UNOA:1+SENDER+RECEIVER+200101:0900+1'UNH+1+ORDERS:D:96A:UN'BGM+220+PO?+1+9'UNT+3+1'UNZ+1+1'";
    agrees_for_every_chunking(input, ReaderConfig::new());
    let (segs, end) = feed_in_chunks(input, 1, ReaderConfig::new());
    assert_eq!(end, None);
    assert_eq!(segs.len(), 5);
    assert_eq!(segs[2].tag, "BGM");
    assert_eq!(segs[2].element_str(1), Some("PO+1"));
    assert_eq!(segs[4].span.end, input.len());
}

#[test]
fn chunked_reader_with_una_header() {
    let input = b"UNA:+.? 'UNB+UNOA:1+S+R+200101:0900+1'\r\nUNZ+0+1'\n";
    agrees_for_every_chunking(input, ReaderConfig::new());
    let (segs, _) = feed_in_chunks(input, 4, ReaderConfig::new());
    assert_eq!(segs[0].tag, "UNB");
    assert_eq!(segs[0].span.start, 9);
    assert_eq!(segs[1].tag, "UNZ");
}

#[test]
fn chunked_reader_custom_separators() {
    let input = b"UNA|*,# ~UNB*UNOA|1*S*R~BGM*2#*20~UNZ*0*1~";
    agrees_for_every_chunking(input, ReaderConfig::new());
    let (segs, end) = feed_in_chunks(input, 3, ReaderConfig::new());
    assert_eq!(end, None);
    assert_eq!(segs[1].element_str(0), Some("2*20"));
}

#[test]
fn chunked_reader_errors_match() {
    agrees_for_every_chunking(b"UNA:+", ReaderConfig::new());
    agrees_for_every_chunking(b"BGM+1'DTM+2", ReaderConfig::new());
    agrees_for_every_chunking(b"BGM+1'DTM+2?", ReaderConfig::new());
    agrees_for_every_chunking(b"BGM+1'+X'", ReaderConfig::new());
    agrees_for_every_chunking(b"BGM+\xff'", ReaderConfig::new());
    agrees_for_every_chunking(b"''  BGM+1'' \n", ReaderConfig::new());
    agrees_for_every_chunking(b"", ReaderConfig::new());
    agrees_for_every_chunking(b"  \r\n", ReaderConfig::new());
    let (segs, end) = feed_in_chunks(b"BGM+1'DTM+2", 2, ReaderConfig::new());
    assert_eq!(segs.len(), 1);
    assert_eq!(end, Some(EdifactError::UnexpectedEof { offset: 11 }));
    let (_, end) = feed_in_chunks(b"UNA:+", 2, ReaderConfig::new());
    assert_eq!(end, Some(EdifactError::InvalidUna));
}

#[test]
fn chunked_reader_limits_match() {
    let input = b"UNH+1+X'BGM+1'UNT+2+1'UNH+2+X'BGM+2'UNT+2+2'";
    agrees_for_every_chunking(input, ReaderConfig::new().max_segments(3));
    agrees_for_every_chunking(input, ReaderConfig::new().max_messages(1));
    agrees_for_every_chunking(input, ReaderConfig::new().max_input_bytes(30));
    agrees_for_every_chunking(input, ReaderConfig::new().max_input_bytes(input.len() as u64));
    agrees_for_every_chunking(input, ReaderConfig::new().max_segment_bytes(6));
    let (segs, end) = feed_in_chunks(input, 5, ReaderConfig::new().max_segments(3));
    assert_eq!(segs.len(), 3);
    assert_eq!(end, Some(EdifactError::LimitExceeded { limit: "max_segments", max: 3 }));
    let (segs, end) = feed_in_chunks(input, 5, ReaderConfig::new().max_segment_bytes(6));
    assert_eq!(segs.len(), 0);
    assert_eq!(end, Some(EdifactError::SegmentTooLong { offset: 0, limit: 6 }));
}

#[test]
fn chunked_reader_takes_no_more_than_one_segment() {
    // A long chunk holding many segments: each call takes only what the next
    // segment needs, and the rest is fed again.
    let mut input = Vec::new();
    for _ in 0..200 {
        input.extend_from_slice(b"DTM+137:20240101:102'");
    }
    let config = ReaderConfig::new().max_segment_bytes(32);
    let mut reader = ChunkedReader::new(config);
    let mut pos = 0;
    let mut count = 0;
    loop {
        let (step, taken) = reader.feed(&input[pos..], true);
        assert!(taken <= 33, "took {taken} bytes at once");
        pos += taken;
        match step {
            ReadStep::Yield(seg) => {
                assert_eq!(seg.tag, "DTM");
                count += 1;
            }
            ReadStep::Done => break,
            other => panic!("unexpected {other:?}"),
        }
    }
    assert_eq!(count, 200);
    assert_eq!(pos, input.len());
}

#[test]
fn chunked_reader_asks_for_more_only_without_a_segment() {
    let mut reader = ChunkedReader::new(ReaderConfig::new());
    // Fewer than nine bytes: whether a `UNA` header starts the input is open.
    let (step, taken) = reader.feed(b"BGM+2", false);
    assert!(matches!(step, ReadStep::NeedInput));
    assert_eq!(taken, 5);
    // Nine bytes settle it; the first segment is then complete.
    let (step, taken) = reader.feed(b"20'DTM+1'", false);
    assert_eq!(taken, 4);
    match step {
        ReadStep::Yield(seg) => {
            assert_eq!(seg.tag, "BGM");
            assert_eq!(seg.element_str(0), Some("220"));
        }
        other => panic!("unexpected {other:?}"),
    }
    let (step, taken) = reader.feed(b"TM+1'", false);
    assert_eq!(taken, 5);
    match step {
        ReadStep::Yield(seg) => {
            assert_eq!(seg.tag, "DTM");
            assert_eq!(seg.span.start, 8);
            assert_eq!(seg.span.end, 14);
        }
        other => panic!("unexpected {other:?}"),
    }
    let (step, taken) = reader.feed(b"", false);
    assert!(matches!(step, ReadStep::NeedInput));
    assert_eq!(taken, 0);
    let (step, taken) = reader.feed(b"", true);
    assert!(matches!(step, ReadStep::Done));
    assert_eq!(taken, 0);
    let (step, taken) = reader.feed(b"more", true);
    assert!(matches!(step, ReadStep::Done));
    assert_eq!(taken, 0);
}

#[test]
fn chunked_reader_stops_on_a_too_long_segment_without_the_rest() {
    let config = ReaderConfig::new().max_segment_bytes(8);
    let mut reader = ChunkedReader::new(config);
    let (step, _) = reader.feed(b"BGM+1'", false);
    assert!(matches!(step, ReadStep::NeedInput));
    let rest: &[u8] = b"FTX+AAA+++THIS IS FAR TOO LONG";
    let (step, taken) = reader.feed(rest, false);
    assert_eq!(taken, 3);
    assert!(matches!(step, ReadStep::Yield(_)));
    let (step, taken) = reader.feed(&rest[3..], false);
    assert_eq!(taken, 6);
    match step {
        ReadStep::Fail(e) => assert_eq!(e, EdifactError::SegmentTooLong { offset: 6, limit: 8 }),
        other => panic!("unexpected {other:?}"),
    }
}
