use bytescan::{is_ascii, is_ascii_auto_simd, Accel};

const TIERS: [Accel; 4] = [Accel::AVX2, Accel::SSE2, Accel::SSE, Accel::Any];

fn scalar_reference(b: &[u8]) -> bool {
    b.iter().all(|&x| x < 128)
}

#[test]
fn empty_buffer_is_ascii() {
    assert!(is_ascii(b""));
    for t in TIERS {
        assert!(is_ascii_auto_simd(b"", t));
    }
}

#[test]
fn agrees_with_scalar_reference_on_all_lengths() {
    // Every length from 0 to four times the widest chunk, including the
    // off-by-one boundaries around each chunk width.
    for len in 0..=128usize {
        let ascii: Vec<u8> = (0..len).map(|i| (i % 128) as u8).collect();
        assert!(scalar_reference(&ascii));
        assert!(is_ascii(&ascii), "length {}", len);
        for t in TIERS {
            assert_eq!(is_ascii_auto_simd(&ascii, t), scalar_reference(&ascii));
        }
    }
}

#[test]
fn boundary_byte_values() {
    assert!(is_ascii(&[0x00, 0x7f, 0x01, 0x7e]));
    assert!(!is_ascii(&[0x80]));
    assert!(!is_ascii(&[0xff]));
    assert!(is_ascii(&[0x7f; 64]));
    assert!(!is_ascii(&[0x80; 64]));
}

#[test]
fn single_high_byte_at_any_position_is_detected() {
    for len in 1..=96usize {
        for pos in 0..len {
            let mut buf = vec![b'x'; len];
            buf[pos] = 0x80;
            assert!(!is_ascii(&buf), "length {} position {}", len, pos);
            for t in TIERS {
                assert!(!is_ascii_auto_simd(&buf, t), "length {} position {}", len, pos);
            }
        }
    }
}

#[test]
fn violation_at_first_and_last_byte() {
    let mut buf = vec![b'a'; 100];
    buf[0] = 0xc3;
    assert!(!is_ascii(&buf));
    let mut buf = vec![b'a'; 100];
    buf[99] = 0xc3;
    assert!(!is_ascii(&buf));
    for t in TIERS {
        let mut buf = vec![b'a'; 33];
        buf[0] = 0x90;
        assert!(!is_ascii_auto_simd(&buf, t));
        let mut buf = vec![b'a'; 33];
        buf[32] = 0x90;
        assert!(!is_ascii_auto_simd(&buf, t));
    }
}

#[test]
fn all_tiers_agree_on_mixed_buffers() {
    for len in 0..=80usize {
        let mixed: Vec<u8> = (0..len).map(|i| (i * 37 % 256) as u8).collect();
        let expected = scalar_reference(&mixed);
        assert_eq!(is_ascii(&mixed), expected);
        for t in TIERS {
            assert_eq!(is_ascii_auto_simd(&mixed, t), expected);
        }
    }
}
