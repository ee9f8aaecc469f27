//! Growable device buffer: power-of-two capacity and reallocation report.

use render_core::pot_buffer::PotBuffer;

#[test]
fn capacity_is_pot_of_running_max() {
    let mut buf = PotBuffer::new();
    assert_eq!(buf.capacity(), 1);
    let lens: [usize; 5] = [3, 3, 5, 2, 9];
    let expect_cap: [usize; 5] = [4, 4, 8, 8, 16];
    let expect_realloc: [bool; 5] = [true, false, true, false, true];
    for i in 0..lens.len() {
        let payload = vec![0u8; lens[i]];
        let realloc = buf.write(&payload);
        assert_eq!(realloc, expect_realloc[i], "call {}", i);
        assert_eq!(buf.capacity(), expect_cap[i], "call {}", i);
        assert_eq!(buf.len(), lens[i]);
    }
}

#[test]
fn repeating_a_length_never_reallocates() {
    let mut buf = PotBuffer::new();
    let payload = vec![7u8; 100];
    assert!(buf.write(&payload));
    let id = buf.buffer_id();
    assert_eq!(buf.capacity(), 128);
    for _ in 0..5 {
        assert!(!buf.write(&payload));
        assert_eq!(buf.buffer_id(), id);
        assert_eq!(buf.capacity(), 128);
    }
}

#[test]
fn identity_changes_exactly_on_reallocation() {
    let mut buf = PotBuffer::new();
    let id0 = buf.buffer_id();
    assert!(!buf.write(&vec![1u8]));
    assert_eq!(buf.buffer_id(), id0);
    assert!(buf.write(&vec![1u8; 2]));
    assert_ne!(buf.buffer_id(), id0);
    let id1 = buf.buffer_id();
    // Shrinking the payload keeps the capacity and the backing resource.
    assert!(!buf.write(&vec![]));
    assert_eq!(buf.buffer_id(), id1);
    assert_eq!(buf.capacity(), 2);
}

#[test]
fn empty_write_keeps_minimum_capacity() {
    let mut buf = PotBuffer::new();
    assert!(!buf.write(&Vec::new()));
    assert_eq!(buf.capacity(), 1);
    assert_eq!(buf.len(), 0);
}
