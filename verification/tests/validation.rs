use std::collections::VecDeque;

use compact_str::utf8::{char_width, is_continuation, validate, validate_prefix};
use compact_str::{CompactString, Utf8Error};

fn agrees_with_std(bytes: &[u8]) {
    let ours = validate(bytes);
    let theirs = std::str::from_utf8(bytes);
    match (ours, theirs) {
        (Ok(()), Ok(_)) => {}
        (Err(a), Err(b)) => {
            assert_eq!(a.valid_up_to(), b.valid_up_to(), "offset for {:?}", bytes);
            assert_eq!(a.error_len(), b.error_len(), "length for {:?}", bytes);
        }
        (a, b) => panic!("{:?}: {:?} against {:?}", bytes, a, b.map(|_| ())),
    }
    let compact = CompactString::from_utf8(bytes);
    match (compact, theirs) {
        (Ok(c), Ok(s)) => {
            assert_eq!(c.as_str(), s);
            assert_eq!(c.as_bytes(), bytes);
            assert_eq!(c.len(), bytes.len());
            assert_eq!(c.is_heap_allocated(), bytes.len() > 24);
        }
        (Err(a), Err(b)) => {
            assert_eq!(a.valid_up_to(), b.valid_up_to());
            assert_eq!(a.error_len(), b.error_len());
        }
        _ => panic!("CompactString and core::str read UTF-8 differently?"),
    }
}

#[test]
fn test_validation_of_every_single_byte() {
    for b in 0..=255u8 {
        agrees_with_std(&[b]);
    }
}

#[test]
fn test_validation_of_every_pair() {
    for a in 0..=255u8 {
        for b in 0..=255u8 {
            agrees_with_std(&[a, b]);
        }
    }
}

#[test]
fn test_validation_of_triples() {
    let seconds = [0x00u8, 0x7F, 0x80, 0x8F, 0x90, 0x9F, 0xA0, 0xBF, 0xC0, 0xC2, 0xE0, 0xED, 0xF4, 0xFF];
    for a in 0x70..=255u8 {
        for b in seconds {
            for c in seconds {
                agrees_with_std(&[a, b, c]);
                agrees_with_std(&[b'x', a, b, c]);
            }
        }
    }
}

#[test]
fn test_validation_of_quadruples() {
    let tails = [0x00u8, 0x7F, 0x80, 0x8F, 0x90, 0xBF, 0xC0, 0xF0, 0xFF];
    for a in 0xE0..=255u8 {
        for b in tails {
            for c in tails {
                for d in tails {
                    agrees_with_std(&[a, b, c, d]);
                    agrees_with_std(&[a, b, c, d, b'x']);
                    agrees_with_std(&[0xC3, 0xA9, a, b, c, d]);
                }
            }
        }
    }
}

#[test]
fn test_validation_errors() {
    // a byte that starts no scalar
    assert_eq!(validate(b"ab\xFFcd"), Err(Utf8Error { valid_up_to: 2, error_len: Some(1) }));
    // a continuation byte where a scalar should start
    assert_eq!(validate(b"\x80"), Err(Utf8Error { valid_up_to: 0, error_len: Some(1) }));
    // an overlong form
    assert_eq!(validate(b"a\xC0\x80"), Err(Utf8Error { valid_up_to: 1, error_len: Some(1) }));
    assert_eq!(validate(b"\xE0\x80\x80"), Err(Utf8Error { valid_up_to: 0, error_len: Some(1) }));
    // a surrogate
    assert_eq!(validate(b"\xED\xA0\x80"), Err(Utf8Error { valid_up_to: 0, error_len: Some(1) }));
    // above the last scalar
    assert_eq!(
        validate(b"\xF4\x90\x80\x80"),
        Err(Utf8Error { valid_up_to: 0, error_len: Some(1) })
    );
    // the input ends inside a scalar
    assert_eq!(validate(b"abc\xE2\x82"), Err(Utf8Error { valid_up_to: 3, error_len: None }));
    assert_eq!(validate(b"\xF0\x9F\xA6"), Err(Utf8Error { valid_up_to: 0, error_len: None }));
    assert_eq!(validate(b"\xC3"), Err(Utf8Error { valid_up_to: 0, error_len: None }));
    // a scalar breaks off after two or three bytes
    assert_eq!(validate(b"\xE2\x82x"), Err(Utf8Error { valid_up_to: 0, error_len: Some(2) }));
    assert_eq!(
        validate(b"\xF0\x9F\xA6x"),
        Err(Utf8Error { valid_up_to: 0, error_len: Some(3) })
    );
    assert_eq!(
        validate("🦀é\u{20AC}".as_bytes()),
        Ok(())
    );
    assert_eq!(validate(b""), Ok(()));
}

#[test]
fn test_error_accessors() {
    let e = Utf8Error { valid_up_to: 7, error_len: Some(2) };
    assert_eq!(e.valid_up_to(), 7);
    assert_eq!(e.error_len(), Some(2));
    let end = Utf8Error { valid_up_to: 1, error_len: None };
    assert_eq!(end.error_len(), None);
}

#[test]
fn test_validate_prefix() {
    let bytes = b"ab\xC3\xA9\xFF";
    assert_eq!(validate_prefix(bytes, 0), Ok(()));
    assert_eq!(validate_prefix(bytes, 2), Ok(()));
    assert_eq!(validate_prefix(bytes, 3), Err(Utf8Error { valid_up_to: 2, error_len: None }));
    assert_eq!(validate_prefix(bytes, 4), Ok(()));
    assert_eq!(validate_prefix(bytes, 5), Err(Utf8Error { valid_up_to: 4, error_len: Some(1) }));
}

#[test]
fn test_char_width() {
    assert_eq!(char_width(0x00), 1);
    assert_eq!(char_width(0x7F), 1);
    assert_eq!(char_width(0x80), 0);
    assert_eq!(char_width(0xBF), 0);
    assert_eq!(char_width(0xC0), 0);
    assert_eq!(char_width(0xC1), 0);
    assert_eq!(char_width(0xC2), 2);
    assert_eq!(char_width(0xDF), 2);
    assert_eq!(char_width(0xE0), 3);
    assert_eq!(char_width(0xEF), 3);
    assert_eq!(char_width(0xF0), 4);
    assert_eq!(char_width(0xF4), 4);
    assert_eq!(char_width(0xF5), 0);
    assert_eq!(char_width(0xFF), 0);
    assert!(is_continuation(0x80));
    assert!(is_continuation(0xBF));
    assert!(!is_continuation(0x7F));
    assert!(!is_continuation(0xC0));
}

#[test]
fn test_from_utf8_round_trip() {
    let texts = ["", "nyc", "i am 24 characters long!", "🦀😀😃😄😁🦀",
        "this text is longer than twenty-four bytes", "咬𓅈ꁈ:_ and some more text to be sure"];
    for text in texts {
        let compact = CompactString::from_utf8(text.as_bytes()).unwrap();
        assert_eq!(compact.as_bytes(), text.as_bytes());
        assert_eq!(compact.len(), text.len());
        assert_eq!(compact.as_str(), text);
        assert_eq!(compact.is_heap_allocated(), text.len() > 24);
    }
}

#[test]
fn test_from_utf8_rejects() {
    let err = CompactString::from_utf8(b"nyc\xFFpizza").unwrap_err();
    assert_eq!(err, Utf8Error { valid_up_to: 3, error_len: Some(1) });
    let long = b"this text is longer than twenty-four bytes\xE2\x82";
    assert_eq!(
        CompactString::from_utf8(long).unwrap_err(),
        Utf8Error { valid_up_to: 42, error_len: None }
    );
}

fn wrapped(data: &[u8]) -> VecDeque<u8> {
    let (front, back) = data.split_at(data.len() / 2 + 1);
    let mut queue = VecDeque::with_capacity(data.len());
    front.iter().copied().for_each(|x| queue.push_back(x));
    back.iter().copied().for_each(|x| queue.push_front(x));
    queue
}

#[test]
fn test_from_utf8_buf() {
    let texts: [&[u8]; 7] = [b"", b"nyc", b"i am 24 characters long!",
        b"this text is longer than twenty-four bytes", b"nyc\xFFpizza", b"\xE2\x82",
        "🦀😀😃😄😁🦀 and more".as_bytes()];
    for text in texts {
        let queue: VecDeque<u8> = text.iter().copied().collect();
        let from_queue = CompactString::from_utf8_buf(&queue);
        let from_slice = CompactString::from_utf8(text);
        match (from_queue, from_slice) {
            (Ok(a), Ok(b)) => {
                assert_eq!(a.as_bytes(), b.as_bytes());
                assert_eq!(a.as_bytes(), text);
                assert_eq!(a.is_heap_allocated(), b.is_heap_allocated());
                assert_eq!(a.is_heap_allocated(), text.len() > 24);
            }
            (Err(a), Err(b)) => assert_eq!(a, b),
            _ => panic!("the buffer and the slice were read differently"),
        }
    }
}

#[test]
fn test_from_utf8_buf_that_wraps_around() {
    let data = "this text is longer than twenty-four bytes, 🦀".as_bytes();
    let mut queue = wrapped(data);
    let (a, b) = queue.as_slices();
    assert!(!a.is_empty());
    assert!(!b.is_empty());
    let compact = CompactString::from_utf8_buf(&queue);
    let control = std::str::from_utf8(queue.make_contiguous()).map(|s| s.to_string());
    match (compact, control) {
        (Ok(c), Ok(s)) => assert_eq!(c.as_str(), s),
        (Err(a), Err(b)) => {
            assert_eq!(a.valid_up_to(), b.valid_up_to());
            assert_eq!(a.error_len(), b.error_len());
        }
        _ => panic!("CompactString and core::str read UTF-8 differently?"),
    }

    let ascii = b"abcdefghijklmnopqrstuvwxyz0123456789";
    let queue = wrapped(ascii);
    let compact = CompactString::from_utf8_buf(&queue).unwrap();
    assert_eq!(compact.as_str(), "9876543210zyxwvutabcdefghijklmnopqrs");
    assert!(compact.is_heap_allocated());
}
