use manotz::buffer::{Buffer, GapBuffer};

#[test]
fn buffer_len_empty() {
    let buf = GapBuffer::new("");
    assert_eq!(buf.len(), 0);
}

#[test]
fn buffer_is_empty() {
    let buf = GapBuffer::new("");
    assert!(buf.is_empty());
}

#[test]
fn buffer_insert() {
    let mut buf = GapBuffer::new("world!");
    buf.insert(0, "hello, ");
    assert_eq!(buf.len(), 13);
}

#[test]
fn buffer_insert_at_start() {
    let mut buf = GapBuffer::new("world!");
    buf.insert(0, "hello, ");
    assert_eq!(buf.slice(0, 13), "hello, world!");
}

#[test]
fn buffer_delete_range() {
    let mut buf = GapBuffer::new("hello, world!");
    buf.delete(4, 10);
    assert_eq!(buf.slice(0, 7), "hellld!");
    assert_eq!(buf.len(), 7);
}

#[test]
fn buffer_chunks_returns_text() {
    let buf = GapBuffer::new("hello world");
    let result: String = buf.chunks(0, 5).collect();
    assert_eq!(result, "hello");
}

#[test]
fn buffer_insert_in_middle_keeps_both_sides() {
    let mut buf = GapBuffer::new("héllo");
    buf.insert(3, "XY");
    assert_eq!(buf.slice(0, buf.len()), "héXYllo");
    assert_eq!(buf.len(), 8);
}

#[test]
fn buffer_delete_then_insert_restores_text() {
    let mut buf = GapBuffer::new("hello world");
    buf.delete(5, 11);
    assert_eq!(buf.slice(0, buf.len()), "hello");
    buf.insert(5, " world");
    assert_eq!(buf.slice(0, buf.len()), "hello world");
    assert!(!buf.is_empty());
}
