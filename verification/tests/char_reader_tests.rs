use json_study::char_reader::{CharReader, Error};

fn reader_for(input: &str) -> CharReader {
    CharReader::new(input.chars().collect())
}

#[test]
fn test_read_tracks_lines_and_columns() {
    let mut reader = reader_for("a\nb");
    assert_eq!(reader.read(), Ok(('a', 1, 1)));
    assert_eq!(reader.read(), Ok(('\n', 1, 2)));
    assert_eq!(reader.read(), Ok(('b', 2, 1)));
    assert_eq!(reader.read(), Err(Error::EOF(2, 1)));
    assert_eq!(reader.read(), Err(Error::EOF(2, 1)));
}

#[test]
fn test_peek_looks_ahead_without_consuming() {
    let mut reader = reader_for("ab");
    assert_eq!(reader.peek(), Ok(('a', 1, 1)));
    assert_eq!(reader.peek(), Ok(('b', 1, 2)));
    assert_eq!(reader.peek(), Err(Error::EOF(1, 2)));
    // Reading still starts from the first unconsumed character.
    assert_eq!(reader.read(), Ok(('a', 1, 1)));
    assert_eq!(reader.read(), Ok(('b', 1, 2)));
}

#[test]
fn test_peek_back_restores_one_step() {
    let mut reader = reader_for("xy");
    assert_eq!(reader.peek(), Ok(('x', 1, 1)));
    assert_eq!(reader.peek(), Ok(('y', 1, 2)));
    reader.peek_back();
    assert_eq!(reader.peek(), Ok(('y', 1, 2)));
}

#[test]
fn test_consume_discards_verified_characters() {
    let mut reader = reader_for("abcd");
    assert_eq!(reader.peek(), Ok(('a', 1, 1)));
    assert_eq!(reader.peek(), Ok(('b', 1, 2)));
    assert!(reader.consume(2).is_ok());
    assert_eq!(reader.read(), Ok(('c', 1, 3)));
    // Consuming past the end reports exhaustion.
    assert_eq!(reader.consume(2), Err(Error::EOF(1, 4)));
}
