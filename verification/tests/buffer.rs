use char_buffer::BufferError;
use char_buffer::CharBuffer;
use char_buffer::SliceSource;

/// Create a string with printable ASCII characters.
/// Also contains the linebreak.
fn create_ascii_string() -> std::string::String {
    let mut input = String::new();
    input.push('\n');

    for keycode in 32..=126 {
        input.push(std::char::from_u32(keycode).unwrap());
    }

    input
}

/// Build a buffer over in-memory bytes, or fail the test.
fn make_buffer(bytes: Vec<u8>, chunk_size: usize) -> CharBuffer<SliceSource> {
    match CharBuffer::new(SliceSource::new(bytes), chunk_size) {
        Ok(buffer) => buffer,
        Err(_) => panic!("construction failed"),
    }
}

#[test]
fn create_buffer() {
    let input = SliceSource::new(Vec::new());
    assert!(CharBuffer::new(input, 32).is_ok());
}

#[test]
fn chunk_size_zero() {
    let input = SliceSource::new(Vec::new());
    assert!(matches!(
        CharBuffer::new(input, 0),
        Err(BufferError::ConfigurationError)
    ));
}

#[test]
fn get_capacity() {
    let mut i = 1;

    while i <= 4096 {
        assert_eq!(make_buffer(Vec::new(), i).capacity(), (i * 2));
        i *= 2;
    }
}

#[test]
fn format_debug() {
    let reader = make_buffer(Vec::new(), 32);
    format!("Buffer {:#?}\n", reader.debug_str());
}

#[test]
fn take_bytes() {
    let input = create_ascii_string();
    let mut reader = make_buffer(input.as_bytes().to_vec(), 8);

    for input_char in input.chars() {
        let byte = reader.take_byte().unwrap();
        assert_eq!(byte as char, input_char);
    }
}

#[test]
fn take_chars() {
    let input = create_ascii_string();
    let mut reader = make_buffer(input.as_bytes().to_vec(), 8);

    for input_char in input.chars() {
        let character = reader.take_char().unwrap();
        assert_eq!(character, input_char);
    }
}

#[test]
fn take_back_chars() {
    let input = create_ascii_string();
    let mut reader = make_buffer(input.as_bytes().to_vec(), 8);

    // consume one and take it back
    reader.take_char().unwrap();
    reader.take_back(1).unwrap();

    // consume the first eight characters (position 0-7)
    for _i in 0..8 {
        reader.take_char().unwrap();
    }

    reader.take_back(8).unwrap();

    // consume the first eight characters again
    for i in 0..8 {
        assert_eq!(input.chars().nth(i).unwrap(), reader.take_char().unwrap());
    }

    // jump into right chunk (position 8) and go back in left half
    reader.take_char().unwrap();
    reader.take_back(8).unwrap();

    for i in 0..8 {
        assert_eq!(input.chars().nth(i + 1).unwrap(), reader.take_char().unwrap());
    }

    // jump into left chunk again (position 0)
    for _i in 0..8 {
        reader.take_char().unwrap();
    }

    reader.take_back(8).unwrap();

    for i in 0..8 {
        // position 8 was already consumed, continue with 9th in reference string
        assert_eq!(input.chars().nth(i + 9).unwrap(), reader.take_char().unwrap());
    }
}

#[test]
fn take_back_too_many() {
    let input = create_ascii_string();
    let mut reader = make_buffer(input.as_bytes().to_vec(), 8);

    // not enough consumed
    assert_eq!(reader.take_back(1).unwrap_err(), BufferError::PermissionDenied);

    // consume some characters
    for _i in 0..8 {
        reader.take_char().unwrap();
    }

    // taking back more than a chunk can contain (in one step)
    assert_eq!(reader.take_back(9).unwrap_err(), BufferError::PermissionDenied);

    // taking back more than a chunk can contain (in multiple steps)
    for _i in (0..8).rev() {
        reader.take_back(1).unwrap();
    }

    assert_eq!(reader.take_back(1).unwrap_err(), BufferError::PermissionDenied);
}

#[test]
fn read_ascii() {
    let input = create_ascii_string();

    let mut reader = make_buffer(input.as_bytes().to_vec(), 8);

    while let Ok(character) = reader.take_char() {
        assert!(character.is_ascii());
    }
}

#[test]
fn read_utf8() {
    let input = "çêéèÇÉÈÊ".as_bytes().to_vec();
    let mut reader = make_buffer(input, 8);

    assert!(matches!(reader.take_char(), Err(BufferError::InvalidInput)));
}

#[test]
fn sequential_chars_reproduce_stream() {
    let text = "abcdefghijklmno\nABCDEFGHIJKLMNO\n012345\n";
    let mut reader = make_buffer(text.as_bytes().to_vec(), 8);
    let mut characters = String::new();

    while let Ok(character) = reader.take_char() {
        characters.push(character);
    }

    assert_eq!(characters, String::from(text));
    assert!(matches!(reader.take_byte(), Err(BufferError::EndOfInput)));
}

#[test]
fn sequential_bytes_reproduce_stream() {
    let bytes: Vec<u8> = (0..=255).collect();
    let mut reader = make_buffer(bytes.clone(), 3);
    let mut collected: Vec<u8> = Vec::new();

    while let Ok(byte) = reader.take_byte() {
        collected.push(byte);
    }

    assert_eq!(collected, bytes);
    assert!(matches!(reader.take_byte(), Err(BufferError::EndOfInput)));
}

#[test]
fn rewind_redelivers_same_chars() {
    let text = "abcdefghijklmno\n";
    let mut reader = make_buffer(text.as_bytes().to_vec(), 8);
    let position_before = reader.position();

    let mut first = String::new();
    for _i in 0..8 {
        first.push(reader.take_char().unwrap());
    }

    assert_eq!(reader.take_back(8).unwrap(), position_before);

    let mut second = String::new();
    for _i in 0..8 {
        second.push(reader.take_char().unwrap());
    }

    assert_eq!(first, second);
    assert_eq!(first, String::from("abcdefgh"));
}

#[test]
fn rewind_nothing_consumed() {
    let text = "abcdefgh";
    let mut reader = make_buffer(text.as_bytes().to_vec(), 8);

    assert_eq!(reader.take_back(1).unwrap_err(), BufferError::PermissionDenied);
}

#[test]
fn rewind_more_than_chunk() {
    let bytes: Vec<u8> = (0..32).collect();
    let mut reader = make_buffer(bytes, 4);

    for _i in 0..12 {
        reader.take_byte().unwrap();
    }

    // more than one chunk, although 12 bytes were consumed
    assert_eq!(reader.take_back(5).unwrap_err(), BufferError::PermissionDenied);
}

#[test]
fn rewind_budget_partial_failure() {
    let bytes: Vec<u8> = (0..20).collect();
    let mut reader = make_buffer(bytes, 8);

    for _i in 0..10 {
        reader.take_byte().unwrap();
    }
    reader.take_back(8).unwrap();
    assert_eq!(reader.take_byte().unwrap(), 2);

    // one byte of withdrawn budget is left: the first step of the rewind is
    // applied, the second fails, and the applied step stays in effect
    assert_eq!(reader.take_back(2).unwrap_err(), BufferError::PermissionDenied);
    assert_eq!(reader.take_byte().unwrap(), 2);
}

#[test]
fn non_ascii_byte_still_consumed() {
    let bytes = vec![0x41u8, 0x80, 0x42];
    let mut reader = make_buffer(bytes, 4);

    assert_eq!(reader.take_char().unwrap(), 'A');
    // the non-ASCII byte is refused as a character but counted as consumed
    assert!(matches!(reader.take_char(), Err(BufferError::InvalidInput)));
    // rewinding one byte re-serves it, and take_byte delivers it raw
    reader.take_back(1).unwrap();
    assert_eq!(reader.take_byte().unwrap(), 0x80);
    assert_eq!(reader.take_char().unwrap(), 'B');
}

#[test]
fn rewind_after_end_of_input() {
    let bytes = vec![1u8, 2, 3, 4];
    let mut reader = make_buffer(bytes, 4);

    for expected in 1..=4 {
        assert_eq!(reader.take_byte().unwrap(), expected);
    }
    assert!(matches!(reader.take_byte(), Err(BufferError::EndOfInput)));

    // the buffer stays usable for rewinding after exhaustion
    reader.take_back(4).unwrap();
    for expected in 1..=4 {
        assert_eq!(reader.take_byte().unwrap(), expected);
    }
    assert!(matches!(reader.take_byte(), Err(BufferError::EndOfInput)));
}

#[test]
fn chunk_size_one() {
    let bytes = vec![7u8, 8, 9];
    let mut reader = make_buffer(bytes, 1);

    assert_eq!(reader.capacity(), 2);
    assert_eq!(reader.take_byte().unwrap(), 7);
    assert_eq!(reader.take_byte().unwrap(), 8);
    reader.take_back(1).unwrap();
    assert_eq!(reader.take_byte().unwrap(), 8);
    assert_eq!(reader.take_byte().unwrap(), 9);
    assert!(matches!(reader.take_byte(), Err(BufferError::EndOfInput)));
}

#[test]
fn position_wraps_around_capacity() {
    let bytes: Vec<u8> = (0..40).collect();
    let mut reader = make_buffer(bytes, 8);

    assert_eq!(reader.position(), 0);
    for _i in 0..20 {
        reader.take_byte().unwrap();
    }
    // 20 consumed in a buffer of capacity 16: the cursor wrapped to slot 4
    assert_eq!(reader.position(), 4);
    assert_eq!(reader.take_back(2).unwrap(), 2);
    assert_eq!(reader.position(), 2);
}
