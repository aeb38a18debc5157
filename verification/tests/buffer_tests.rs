use rune::buffer::{Buffer, GAP_SIZE};

#[test]
fn create() {
    let string = "hello buffer";
    let buffer = Buffer::new(string);
    assert_eq!(buffer.storage.len(), string.len() + GAP_SIZE);
    assert_eq!(buffer.gap_end, GAP_SIZE);
    assert_eq!(buffer.gap_start, 0);
}

#[test]
fn insert() {
    let string = "hello buffer";
    let mut buffer = Buffer::new(string);
    buffer.insert_char('x');
    assert_eq!(buffer.storage.len(), string.len() + GAP_SIZE);
    assert_eq!(buffer.gap_end, GAP_SIZE);
    assert_eq!(buffer.gap_start, 1);
}

#[test]
fn insert_slice() {
    let string = "hello buffer";
    let new_string = "world";
    let mut buffer = Buffer::new(string);
    buffer.insert_string(new_string);
    assert_eq!(buffer.storage.len(), string.len() + GAP_SIZE);
    assert_eq!(buffer.gap_end, GAP_SIZE);
    assert_eq!(buffer.gap_start, new_string.len());
}

#[test]
fn delete() {
    let world = "world";
    let hello = "hello ";
    let mut buffer = Buffer::new(world);
    buffer.insert_string(hello);
    buffer.delete(4);
    assert_eq!(buffer.gap_start, hello.len() - 4);
    assert_eq!(buffer.gap_end, hello.len() + GAP_SIZE);
}

#[test]
fn resize() {
    let world = "world";
    let hello = "hello ";
    let mut buffer = Buffer::new(world);
    buffer.insert_string(hello);
    assert_eq!(buffer.storage.len(), hello.len() + world.len() + GAP_SIZE);
    assert_eq!(buffer.gap_end, hello.len() + GAP_SIZE);
    assert_eq!(buffer.gap_start, hello.len());
}

#[test]
fn multibyte_insert() {
    let mut buffer = Buffer::new("abc");
    buffer.insert_char('\u{e9}');
    assert_eq!(buffer.gap_start, 2);
    assert_eq!(&buffer.storage[0..2], "\u{e9}".as_bytes());
}
