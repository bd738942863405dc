//! Tests of the code buffer's permission protocol.

use mijit::buffer::CodeBuffer;

#[test]
fn permission_round_trip() {
    // The buffer starts writable; flipping to executable exposes the
    // bytes for execution; flipping back makes it writable again.
    let mut buf = CodeBuffer::new();
    assert!(!buf.is_executable());
    buf.write_byte_at(0, 0xC3);
    buf.write_byte_at(1, 0x90);
    buf.make_executable();
    assert!(buf.is_executable());
    {
        let code = buf.executable_bytes();
        assert_eq!(code, &vec![0xC3, 0x90]);
    }
    buf.make_writable();
    assert!(!buf.is_executable());
    // Assembly can continue after the flip back.
    buf.write_byte_at(2, 0xCC);
    assert_eq!(buf.len(), 3);
    assert_eq!(buf.read_byte(2), 0xCC);
}

#[test]
fn writes_grow_and_overwrite() {
    let mut buf = CodeBuffer::new();
    buf.write_byte_at(0, 1);
    buf.write_byte_at(1, 2);
    buf.write_byte_at(0, 3);
    assert_eq!(buf.len(), 2);
    assert_eq!(buf.read_byte(0), 3);
    assert_eq!(buf.read_byte(1), 2);
}
