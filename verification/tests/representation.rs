use compact_str::block::Block;
use compact_str::discriminant::{classify, decode_inline_tag, encode_inline_tag};
use compact_str::heap::{extend_bytes, write_at};
use compact_str::scalar::{decode_last_char, encode_char};
use compact_str::{CompactString, Discriminant, HeapString, HEAP_MASK, MAX_SIZE};

#[test]
fn test_inline_tags_round_trip() {
    for len in 0..=23usize {
        let tag = encode_inline_tag(len);
        assert_eq!(tag as usize, 0xC0 + len);
        assert!(tag >= 0xC0);
        assert_ne!(tag, HEAP_MASK);
        assert_eq!(decode_inline_tag(tag), len);
        assert_eq!(classify(tag), Discriminant::Inline(len));
    }
}

#[test]
fn test_classify_every_byte() {
    for byte in 0..=255u8 {
        let expected = if byte == 0xFF {
            Discriminant::Heap
        } else if byte >= 0xC0 {
            Discriminant::Inline((byte - 0xC0) as usize)
        } else {
            Discriminant::Packed
        };
        assert_eq!(classify(byte), expected);
    }
}

#[test]
fn test_discriminant_of_values() {
    assert_eq!(CompactString::new("").discriminant(), Discriminant::Inline(0));
    assert_eq!(CompactString::new("nyc").discriminant(), Discriminant::Inline(3));
    assert_eq!(
        CompactString::new("12345678901234567890123").discriminant(),
        Discriminant::Inline(23)
    );
    assert_eq!(
        CompactString::new("i am 24 characters long!").discriminant(),
        Discriminant::Packed
    );
    assert_eq!(CompactString::new("🦀😀😃😄😁🦀").discriminant(), Discriminant::Packed);
    assert_eq!(
        CompactString::new("i am 25 characters long!!").discriminant(),
        Discriminant::Heap
    );
    assert_eq!(CompactString::new("nyc").last_byte(), 0xC3);
    assert_eq!(CompactString::new("i am 24 characters long!").last_byte(), b'!');
    assert_eq!(CompactString::new("i am 25 characters long!!").last_byte(), 0xFF);
}

#[test]
fn test_heap_handle_fills_a_block() {
    assert_eq!(std::mem::size_of::<HeapString>(), MAX_SIZE);
    assert_eq!(std::mem::size_of::<HeapString>(), std::mem::size_of::<String>());
    assert_eq!(std::mem::size_of::<Block>(), MAX_SIZE);
}

#[test]
fn test_heap_string_new() {
    let heap = HeapString::new("nyc pizza");
    assert_eq!(heap.as_bytes(), b"nyc pizza");
    assert_eq!(heap.len(), 9);
    assert_eq!(heap.capacity(), 9);
    assert_eq!(heap.last_byte(), HEAP_MASK);
    let empty = HeapString::new("");
    assert_eq!(empty.len(), 0);
    assert_eq!(empty.as_bytes(), b"");
}

#[test]
fn test_heap_string_from_string() {
    let heap = HeapString::from_string(String::from("statue of liberty"));
    assert_eq!(heap.as_bytes(), b"statue of liberty");
    assert_eq!(heap.len(), 17);
}

#[test]
fn test_heap_string_unique_access() {
    let mut heap = HeapString::new("nyc");
    match heap.try_unique_mut() {
        Some(view) => {
            assert_eq!(view, b"nyc");
            view[0] = b'N';
        }
        None => panic!("a fresh handle is not shared"),
    }
    assert_eq!(heap.as_bytes(), b"Nyc");

    let other = heap.clone();
    assert!(heap.try_unique_mut().is_none());
    assert_eq!(heap.as_bytes(), b"Nyc");
    assert_eq!(other.as_bytes(), b"Nyc");

    let view = heap.as_mut_bytes();
    view[1] = b'Y';
    assert_eq!(heap.as_bytes(), b"NYc");
    assert_eq!(other.as_bytes(), b"Nyc");
    assert!(heap.try_unique_mut().is_some());
    drop(other);
}

#[test]
fn test_heap_string_append_and_reserve() {
    let mut heap = HeapString::new("nyc");
    let shared = heap.clone();
    heap.append(b" pizza");
    assert_eq!(heap.as_bytes(), b"nyc pizza");
    assert_eq!(heap.capacity(), 9);
    assert_eq!(shared.as_bytes(), b"nyc");
    heap.reserve_to(20);
    assert_eq!(heap.capacity(), 20);
    assert_eq!(heap.as_bytes(), b"nyc pizza");
    heap.reserve_to(10);
    assert_eq!(heap.capacity(), 20);
    heap.append(b"!");
    assert_eq!(heap.as_bytes(), b"nyc pizza!");
    assert_eq!(heap.capacity(), 20);
    heap.set_len(3);
    assert_eq!(heap.as_bytes(), b"nyc");
}

#[test]
fn test_write_at() {
    let mut buffer = b"abcdef".to_vec();
    write_at(&mut buffer, 2, b"XY");
    assert_eq!(buffer, b"abXYef");
    write_at(&mut buffer, 4, b"1234");
    assert_eq!(buffer, b"abXY1234");
    write_at(&mut buffer, 8, b"");
    assert_eq!(buffer, b"abXY1234");
    write_at(&mut buffer, 8, b"z");
    assert_eq!(buffer, b"abXY1234z");
    extend_bytes(&mut buffer, b"!!");
    assert_eq!(buffer, b"abXY1234z!!");
}

#[test]
fn test_block() {
    let empty = Block::empty();
    assert_eq!(empty.len(), 0);
    assert_eq!(empty.last_byte(), 0xC0);
    let mut block = Block::new(b"nyc");
    assert_eq!(block.as_bytes(), b"nyc");
    assert_eq!(block.last_byte(), 0xC3);
    block.append(b" pizza");
    assert_eq!(block.as_bytes(), b"nyc pizza");
    block.append(b" is good, 24!!!");
    assert_eq!(block.len(), 24);
    assert_eq!(block.last_byte(), b'!');
    assert_eq!(block.as_bytes(), b"nyc pizza is good, 24!!!");
    block.set_len(3);
    assert_eq!(block.as_bytes(), b"nyc");
    assert_eq!(block.as_mut_bytes().len(), 24);
}

#[test]
fn test_encode_char() {
    for code in (0..=0x10FFFFu32).step_by(7).chain([0x7F, 0x80, 0x7FF, 0x800, 0xFFFF, 0x10000, 0x10FFFF]) {
        if let Some(ch) = char::from_u32(code) {
            let (bytes, n) = encode_char(ch);
            let mut expected = [0u8; 4];
            let text = ch.encode_utf8(&mut expected);
            assert_eq!(n, text.len());
            assert_eq!(&bytes[..n], text.as_bytes());
        }
    }
}

#[test]
fn test_decode_last_char() {
    let text = "aé€🦀";
    let bytes = text.as_bytes();
    assert_eq!(decode_last_char(bytes, 10), ('🦀', 4));
    assert_eq!(decode_last_char(bytes, 6), ('€', 3));
    assert_eq!(decode_last_char(bytes, 3), ('é', 2));
    assert_eq!(decode_last_char(bytes, 1), ('a', 1));
    for code in (0..=0x10FFFFu32).step_by(11) {
        if let Some(ch) = char::from_u32(code) {
            let mut s = String::from("xyz");
            s.push(ch);
            assert_eq!(decode_last_char(s.as_bytes(), s.len()), (ch, ch.len_utf8()));
        }
    }
}

#[test]
fn test_exclusive_view() {
    let mut buffer = b"nyc".to_vec();
    match compact_str::heap::exclusive_view(Some(&mut buffer)) {
        Some(view) => {
            assert_eq!(view, b"nyc");
            view[2] = b'C';
        }
        None => panic!("access was granted"),
    }
    assert_eq!(buffer, b"nyC");
    assert!(compact_str::heap::exclusive_view(None).is_none());
}
