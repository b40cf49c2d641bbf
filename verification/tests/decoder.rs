use mmapzstd::cursor::{retire_frontier, Cursor, Retirement, Truncated, PAGE, RETIRE_WINDOW};
use mmapzstd::decoder::{DecodeError, Decoder, CHUNK};
use mmapzstd::frame::begins_like_a_frame;
use mmapzstd::mapping::{apply_madvise, next_advice, settle_advice, AdviceStep, MapAdvice};
use mmapzstd::stream::Status;

fn sample(n: u16, modulus: u16) -> Vec<u8> {
    (0u16..n).map(|i| (i % modulus) as u8).collect()
}

fn noise(bytes: u32) -> Vec<u8> {
    (0u32..bytes / 4)
        .flat_map(|i| i.wrapping_mul(1664525).wrapping_add(1013904223).to_le_bytes())
        .collect()
}

fn encode(data: &[u8]) -> Vec<u8> {
    zstd::encode_all(data, 0).expect("encode_all")
}

fn mapping(bytes: &[u8]) -> memmap2::Mmap {
    let mut map = memmap2::MmapOptions::new()
        .len(bytes.len())
        .map_anon()
        .expect("map_anon");
    map.copy_from_slice(bytes);
    map.make_read_only().expect("make_read_only")
}

fn skippable(payload: &[u8]) -> Vec<u8> {
    let mut frame = vec![0x50, 0x2a, 0x4d, 0x18];
    frame.extend_from_slice(&(payload.len() as u32).to_le_bytes());
    frame.extend_from_slice(payload);
    frame
}

fn decompress(data: &[u8]) -> Result<Vec<u8>, DecodeError> {
    let mut out = Vec::new();
    Decoder::from_slice(data)?.read_to_end(&mut out)?;
    Ok(out)
}

fn read_all(dec: &mut Decoder<'_>, size: usize) -> Vec<u8> {
    let mut got = Vec::new();
    let mut buf = vec![0u8; size];
    loop {
        match dec.read(&mut buf).expect("read") {
            0 => return got,
            n => got.extend_from_slice(&buf[..n]),
        }
    }
}

#[test]
fn round_trip() {
    let data: Vec<u8> = (0u16..1024).map(|i| (i % 251) as u8).collect();

    let mut dec = Decoder::from_mmap(mapping(&encode(&data))).expect("open");
    let mut got = Vec::new();
    dec.read_to_end(&mut got).expect("read_to_end");

    assert_eq!(got, data);
}

#[test]
fn round_trip_from_slice() {
    let data: Vec<u8> = (0u16..1024).map(|i| (i % 251) as u8).collect();
    let compressed = zstd::encode_all(data.as_slice(), 0).expect("encode_all");

    let mut dec = Decoder::from_slice(&compressed).expect("from_slice");
    let mut got = Vec::new();
    dec.read_to_end(&mut got).expect("read_to_end");

    assert_eq!(got, data);
}

#[test]
fn retire_pos_advances_after_large_read() {
    let data: Vec<u8> = noise(10 * 1024 * 1024);
    let compressed = zstd::encode_all(data.as_slice(), 3).expect("encode_all");
    let compressed_len = compressed.len();

    let mut dec = Decoder::from_mmap(mapping(&compressed)).expect("open");
    let mut got = Vec::with_capacity(data.len());
    dec.read_to_end(&mut got).expect("read_to_end");
    assert_eq!(got, data);

    if compressed_len > RETIRE_WINDOW {
        assert!(dec.retire_pos() > 0, "retire_pos should advance on linux");
    }
    assert_eq!(dec.retire_pos(), retire_frontier(compressed_len));
}

#[test]
fn small_buf_exercises_overflow() {
    let data: Vec<u8> = (0u16..4096).map(|i| (i % 199) as u8).collect();

    let mut dec = Decoder::from_mmap(mapping(&encode(&data))).expect("open");
    let mut got = Vec::with_capacity(data.len());
    let mut one = [0u8; 1];
    loop {
        match dec.read(&mut one).expect("read") {
            0 => break,
            n => got.extend_from_slice(&one[..n]),
        }
    }

    assert_eq!(got, data);
}

#[test]
fn hello_world() {
    let compressed = encode(b"hello world");
    let mut dec = Decoder::from_slice(&compressed).unwrap();
    let mut out = Vec::new();
    assert_eq!(dec.read_to_end(&mut out).unwrap(), 11);
    assert_eq!(out, b"hello world");
    assert_eq!(decompress(&compressed).unwrap(), b"hello world");
}

#[test]
fn read_to_end_appends() {
    let compressed = encode(b"world");
    let mut dec = Decoder::from_slice(&compressed).unwrap();
    let mut out = b"hello ".to_vec();
    assert_eq!(dec.read_to_end(&mut out).unwrap(), 5);
    assert_eq!(out, b"hello world");
}

#[test]
fn empty_buffer_reads_nothing() {
    let compressed = encode(&sample(100, 7));
    let mut dec = Decoder::from_slice(&compressed).unwrap();
    assert_eq!(dec.read(&mut []).unwrap(), 0);
    assert_eq!(decompress(&compressed).unwrap(), sample(100, 7));
    assert_eq!(read_all(&mut dec, 3), sample(100, 7));
}

#[test]
fn buffer_size_does_not_matter() {
    let data = noise(300_000);
    let compressed = encode(&data);
    for size in [1usize, 7, 4096, 131072, 131073, 1_000_000] {
        let mut dec = Decoder::from_slice(&compressed).unwrap();
        assert_eq!(read_all(&mut dec, size), data);
    }
}

#[test]
fn backing_does_not_matter() {
    let data = noise(300_000);
    let compressed = encode(&data);
    let mut a = Decoder::from_slice(&compressed).unwrap();
    let mut b = Decoder::from_mmap(mapping(&compressed)).unwrap();
    assert!(a.mmap().is_none());
    assert_eq!(&b.mmap().unwrap()[..], &compressed[..]);
    assert_eq!(read_all(&mut a, 1000), read_all(&mut b, 999));
}

#[test]
fn end_is_final() {
    let compressed = encode(b"abc");
    let mut dec = Decoder::from_slice(&compressed).unwrap();
    let mut buf = [0u8; 8];
    assert_eq!(dec.read(&mut buf).unwrap(), 3);
    for _ in 0..40 {
        assert_eq!(dec.read(&mut buf).unwrap(), 0);
    }
}

#[test]
fn empty_content_and_empty_input() {
    assert_eq!(decompress(&encode(b"")).unwrap(), b"");
    assert_eq!(decompress(b"").unwrap(), b"");
}

#[test]
fn frames_follow_each_other() {
    let mut two = encode(b"first ");
    two.extend_from_slice(&encode(b"second"));
    assert_eq!(decompress(&two).unwrap(), b"first second");
    for size in [1usize, 5, 6, 7, 12] {
        let mut dec = Decoder::from_slice(&two).unwrap();
        assert_eq!(read_all(&mut dec, size), b"first second");
    }
}

#[test]
fn silent_frame_reads_as_the_end() {
    let mut stream = skippable(b"note");
    stream.extend_from_slice(&encode(b"text"));
    let mut dec = Decoder::from_slice(&stream).unwrap();
    let mut buf = [0u8; 16];
    assert_eq!(dec.read(&mut buf).unwrap(), 0);
    assert_eq!(dec.read(&mut buf).unwrap(), 4);
    assert_eq!(&buf[..4], b"text");

    let mut stream = encode(b"text");
    stream.extend_from_slice(&skippable(b"note"));
    assert_eq!(decompress(&stream).unwrap(), b"text");
}

#[test]
fn truncated_input_is_reported() {
    let data = noise(300_000);
    let compressed = encode(&data);
    for cut in [1usize, 3, 5, 20, 1000, compressed.len() - 1] {
        assert!(matches!(
            decompress(&compressed[..cut]),
            Err(DecodeError::Truncated)
        ));
    }
    let mut out = Vec::new();
    let mut dec = Decoder::from_slice(&compressed[..200_000]).unwrap();
    assert!(matches!(dec.read_to_end(&mut out), Err(DecodeError::Truncated)));
    assert!(!out.is_empty());
    assert_eq!(out[..], data[..out.len()]);
}

#[test]
fn every_cut_of_two_frames() {
    let mut two = encode(&sample(900, 251));
    let first = two.len();
    two.extend_from_slice(&encode(&sample(700, 199)));
    for cut in 0..two.len() {
        let out = decompress(&two[..cut]);
        if cut == 0 {
            assert_eq!(out.unwrap(), b"");
        } else if cut == first {
            assert_eq!(out.unwrap(), sample(900, 251));
        } else {
            assert!(matches!(out, Err(DecodeError::Truncated)), "{}", cut);
        }
    }
}

#[test]
fn constructor_refuses_what_begins_no_frame() {
    for bad in [
        &[0u8; 16][..],
        b"this is no zstd frame",
        &[0x28, 0xb5, 0x2f, 0xfc],
        &[0x29],
        &[0x28, 0xb5, 0x2e],
        &[0x60, 0x2a, 0x4d, 0x18],
        &[0x50, 0xb5],
        &[0x28, 0xb5, 0x2f, 0xfd, 0x08],
        &[0x28, 0xb5, 0x2f, 0xfd, 0x00, 22 << 3],
    ] {
        assert!(!begins_like_a_frame(bad));
        assert!(matches!(Decoder::from_slice(bad), Err(DecodeError::Header)));
        assert!(matches!(Decoder::from_mmap(mapping(bad)), Err(DecodeError::Header)));
    }
    let frame = encode(b"fine");
    let note = skippable(b"note");
    for len in 0..=frame.len() {
        assert!(Decoder::from_slice(&frame[..len]).is_ok());
    }
    for len in 0..=note.len() {
        assert!(Decoder::from_slice(&note[..len]).is_ok());
    }
    assert!(begins_like_a_frame(&[0x28, 0xb5, 0x2f, 0xfd, 0x00, (21 << 3) + 7]));
    assert!(begins_like_a_frame(&[0x28, 0xb5, 0x2f, 0xfd, 0x20, 22 << 3]));
    assert!(begins_like_a_frame(&[0x27, 0xb5, 0x2f, 0xfd, 0x08]));
    assert!(begins_like_a_frame(&[0x5f, 0x2a, 0x4d, 0x18, 0x08]));
    assert!(!begins_like_a_frame(&[0x23, 0xb5, 0x2f, 0xfd]));
    assert!(!begins_like_a_frame(&[0x4f, 0x2a, 0x4d, 0x18]));
}

#[test]
fn garbage_is_rejected() {
    let mut tail = encode(b"fine");
    tail.extend_from_slice(b"this is no zstd frame");
    let mut dec = Decoder::from_slice(&tail).unwrap();
    let mut out = Vec::new();
    assert!(matches!(dec.read_to_end(&mut out), Err(DecodeError::InvalidData(_))));
    assert_eq!(out, b"fine");
    for _ in 0..3 {
        assert!(matches!(dec.read(&mut [0u8; 4]), Err(DecodeError::InvalidData(_))));
    }

    let mut unknown_block = encode(b"fine");
    unknown_block.truncate(6);
    unknown_block.extend_from_slice(&[0xff; 32]);
    let mut dec = Decoder::from_mmap(mapping(&unknown_block)).unwrap();
    assert!(matches!(dec.read(&mut [0u8; 4]), Err(DecodeError::InvalidData(_))));
    assert_eq!(dec.retire_pos(), 0);

    let mut corrupt = encode(&noise(100_000));
    let middle = corrupt.len() / 2;
    corrupt.truncate(middle);
    corrupt.extend_from_slice(&[0xff; 64]);
    assert!(decompress(&corrupt).is_err());
}

#[test]
fn refused_hint_is_an_error() {
    let compressed = encode(b"abc");
    let refusal = std::io::Error::from_raw_os_error(22);
    match Decoder::from_advised(mapping(&compressed), Err(refusal)) {
        Err(DecodeError::Advise(e)) => assert_eq!(e.raw_os_error(), Some(22)),
        _ => panic!("no error"),
    }
    let refusal = std::io::Error::from_raw_os_error(22);
    assert!(matches!(
        Decoder::from_advised(mapping(&[0u8; 16]), Err(refusal)),
        Err(DecodeError::Advise(_))
    ));
    let mut map = mapping(&compressed);
    apply_madvise(&mut map).unwrap();
    let mut dec = Decoder::from_advised(map, Ok(())).unwrap();
    assert_eq!(read_all(&mut dec, 2), b"abc");
}

#[test]
fn errors_tell_whose_fault_it_is() {
    let cause = || std::io::Error::from_raw_os_error(22);
    assert!(DecodeError::Header.is_invalid_data());
    assert!(DecodeError::Truncated.is_invalid_data());
    assert!(DecodeError::InvalidData(cause()).is_invalid_data());
    assert!(!DecodeError::Advise(cause()).is_invalid_data());
    assert!(!DecodeError::Init(cause()).is_invalid_data());
}

#[test]
fn whole_frame_in_one_read() {
    let data = noise(300_000);
    let compressed = encode(&data);
    let mut dec = Decoder::from_slice(&compressed).unwrap();
    let mut buf = vec![0u8; data.len()];
    assert_eq!(dec.read(&mut buf).unwrap(), data.len());
    assert_eq!(buf, data);
    assert!(data.len() > CHUNK);
}

#[test]
fn steps_name_retired_pages_in_order() {
    let data = noise(12 * 1024 * 1024);
    let compressed = zstd::encode_all(data.as_slice(), 1).unwrap();
    let mut dec = Decoder::from_mmap(mapping(&compressed)).unwrap();
    let mut buf = vec![0u8; 100_000];
    let mut frontier = 0;
    loop {
        let step = dec.read_step(&mut buf);
        if let Some(r) = step.retire {
            assert_eq!(r.offset, frontier);
            assert_eq!(r.offset % PAGE, 0);
            assert_eq!(r.len % PAGE, 0);
            assert!(r.len > 0);
            frontier = r.offset + r.len;
        }
        assert_eq!(dec.retire_pos(), frontier);
        if step.result.unwrap() == 0 {
            break;
        }
    }
    assert_eq!(frontier, retire_frontier(compressed.len()));
    assert!(frontier > 0);

    let mut dec = Decoder::from_slice(&compressed).unwrap();
    loop {
        let step = dec.read_step(&mut buf);
        assert_eq!(step.retire, None);
        if step.result.unwrap() == 0 {
            break;
        }
    }
    assert_eq!(dec.retire_pos(), 0);
}

#[test]
fn pages_are_named_when_the_input_is_cut_off() {
    let data = noise(12 * 1024 * 1024);
    let compressed = zstd::encode_all(data.as_slice(), 1).unwrap();
    let cut = compressed.len() - 1;
    assert!(cut > RETIRE_WINDOW + PAGE);
    for size in [100_000usize, 131_072, 1 << 24] {
        let mut dec = Decoder::from_mmap(mapping(&compressed[..cut])).unwrap();
        let mut buf = vec![0u8; size];
        let mut frontier = 0;
        loop {
            let step = dec.read_step(&mut buf);
            if let Some(r) = step.retire {
                assert_eq!(r.offset, frontier);
                frontier += r.len;
            }
            assert_eq!(dec.retire_pos(), frontier);
            match step.result {
                Ok(n) => assert!(n > 0),
                Err(e) => {
                    assert!(matches!(e, DecodeError::Truncated));
                    break;
                }
            }
        }
        assert_eq!(frontier, retire_frontier(cut));
    }
}

#[test]
fn pages_that_a_read_gives_up_are_named_later() {
    let data = noise(12 * 1024 * 1024);
    let compressed = zstd::encode_all(data.as_slice(), 1).unwrap();
    let mut dec = Decoder::from_mmap(mapping(&compressed)).unwrap();
    let mut out = Vec::new();
    dec.read_to_end(&mut out).unwrap();
    assert_eq!(out, data);
    let end = retire_frontier(compressed.len());
    assert_eq!(dec.retire_pos(), end);
    let step = dec.read_step(&mut []);
    assert_eq!(step.result.unwrap(), 0);
    assert_eq!(step.retire, Some(Retirement { offset: 0, len: end }));
    assert_eq!(dec.read_step(&mut [0u8; 8]).retire, None);
}

#[test]
fn frontier_values() {
    assert_eq!(RETIRE_WINDOW, 4 * 1024 * 1024);
    assert_eq!(retire_frontier(0), 0);
    assert_eq!(retire_frontier(4194304), 0);
    assert_eq!(retire_frontier(4194304 + 4095), 0);
    assert_eq!(retire_frontier(4194304 + 4096), 4096);
    assert_eq!(retire_frontier(10_000_000), 5_804_032);
    assert_eq!(retire_frontier(usize::MAX), usize::MAX - 4194304 - 4095);
}

#[test]
fn cursor_moves_with_each_step() {
    let mut c = Cursor::new(true);
    let s = Status { remaining: 9, bytes_read: 5_000_000, bytes_written: 10 };
    assert_eq!(c.advance(6_000_000, s), Ok(10));
    assert_eq!(
        c,
        Cursor {
            in_pos: 5_000_000,
            retire_pos: 802816,
            handed_pos: 0,
            frame_open: true,
            file_backed: true,
        }
    );
    let moved = c;
    c.maybe_retire();
    assert_eq!(c, moved);
    assert_eq!(c.hand_out(), Some(Retirement { offset: 0, len: 802816 }));
    assert_eq!(c.handed_pos, 802816);
    assert_eq!(c.hand_out(), None);

    let s = Status { remaining: 0, bytes_read: 1_000_000, bytes_written: 0 };
    assert_eq!(c.advance(6_000_000, s), Ok(0));
    assert_eq!(c.hand_out(), Some(Retirement { offset: 802816, len: 999_424 }));
    assert!(!c.frame_open);
    assert_eq!(c.in_pos, 6_000_000);
}

#[test]
fn cursor_tells_the_end_from_a_cut() {
    let idle = Status { remaining: 9, bytes_read: 0, bytes_written: 0 };

    let mut c = Cursor::new(false);
    assert_eq!(c.advance(0, idle), Ok(0));

    let mut c = Cursor::new(false);
    c.in_pos = 100;
    c.frame_open = true;
    assert_eq!(c.advance(200, idle), Ok(0));
    assert_eq!(c.advance(100, idle), Err(Truncated));

    let mut c = Cursor::new(false);
    let s = Status { remaining: 2, bytes_read: 8, bytes_written: 0 };
    assert_eq!(c.advance(8, s), Err(Truncated));
    assert_eq!(c.in_pos, 8);

    let mut c = Cursor::new(false);
    let s = Status { remaining: 2, bytes_read: 8, bytes_written: 1 };
    assert_eq!(c.advance(8, s), Ok(1));
}

#[test]
fn cut_that_gives_pages_up_leaves_them_to_be_named() {
    let mut c = Cursor::new(true);
    let s = Status { remaining: 9, bytes_read: 4_194_304, bytes_written: 1 };
    assert_eq!(c.advance(4_198_400, s), Ok(1));
    assert_eq!(c.hand_out(), None);
    let s = Status { remaining: 9, bytes_read: 4096, bytes_written: 0 };
    assert_eq!(c.advance(4_198_400, s), Err(Truncated));
    assert_eq!(c.retire_pos, 4096);
    assert_eq!(c.hand_out(), Some(Retirement { offset: 0, len: 4096 }));
}

#[test]
fn advice_comes_in_order() {
    let plan: Vec<AdviceStep> = (0usize..10).filter_map(next_advice).collect();
    assert_eq!(
        plan,
        vec![
            AdviceStep { advice: MapAdvice::Sequential, required: true },
            AdviceStep { advice: MapAdvice::HugePage, required: false },
            AdviceStep { advice: MapAdvice::PopulateRead, required: false },
        ]
    );
    for step in plan {
        assert!(settle_advice(step, Ok(())).is_ok());
        let refused = settle_advice(step, Err(std::io::Error::from_raw_os_error(22)));
        assert_eq!(refused.is_err(), step.required);
    }
}
