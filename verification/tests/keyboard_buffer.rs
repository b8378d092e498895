use rust_os::keyboard_input_buffer::KeyboardInputBuffer;

fn empty_buffer(at: usize) -> KeyboardInputBuffer {
    KeyboardInputBuffer { front: at, back: at, buffer: [0u8; 128] }
}

#[test]
fn read_from_empty_buffer_gives_none() {
    let mut b = empty_buffer(0);
    assert_eq!(b.read_key(), None);
    assert_eq!(b.front, 0);
    assert_eq!(b.back, 0);
}

#[test]
fn read_undoes_add() {
    let mut b = empty_buffer(7);
    assert!(b.add_key(0x1e));
    assert_eq!(b.back, 8);
    assert_eq!(b.buffer[7], 0x1e);
    assert_eq!(b.read_key(), Some(0x1e));
    assert_eq!(b.read_key(), None);
    assert_eq!(b.front, b.back);
}

#[test]
fn keys_come_out_in_order() {
    let mut b = empty_buffer(0);
    for k in 1u8..=127 {
        assert!(b.add_key(k));
    }
    for k in 1u8..=127 {
        assert_eq!(b.read_key(), Some(k));
    }
    assert_eq!(b.read_key(), None);
}

#[test]
fn full_buffer_refuses_and_stays_unchanged() {
    let mut b = empty_buffer(100);
    for k in 0u8..127 {
        assert!(b.add_key(k));
    }
    let front = b.front;
    let back = b.back;
    let contents = b.buffer;
    assert!(!b.add_key(200));
    assert_eq!(b.front, front);
    assert_eq!(b.back, back);
    assert_eq!(b.buffer, contents);
    assert_eq!(b.read_key(), Some(0));
    assert!(b.add_key(200));
}

#[test]
fn cursors_wrap_around() {
    let mut b = empty_buffer(127);
    assert!(b.add_key(5));
    assert_eq!(b.back, 0);
    assert!(b.add_key(6));
    assert_eq!(b.back, 1);
    assert_eq!(b.read_key(), Some(5));
    assert_eq!(b.front, 0);
    assert_eq!(b.read_key(), Some(6));
    assert_eq!(b.front, 1);
}

#[test]
fn cursors_outside_the_buffer_without_access() {
    let mut b = KeyboardInputBuffer { front: 200, back: 200, buffer: [0u8; 128] };
    assert_eq!(b.read_key(), None);
    assert_eq!(b.front, 200);
    let mut c = KeyboardInputBuffer { front: 73, back: 200, buffer: [0u8; 128] };
    assert!(!c.add_key(9));
    assert_eq!(c.back, 200);
    let mut d = KeyboardInputBuffer { front: 300, back: 5, buffer: [0u8; 128] };
    assert!(d.add_key(9));
    assert_eq!(d.back, 6);
    assert_eq!(d.buffer[5], 9);
}
