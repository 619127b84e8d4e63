use pathfinder::reader::Cursor;
use pathfinder::FontError;

#[test]
fn reads_big_endian_values() {
    let bytes = [0x12, 0x34, 0xFF, 0xFE, 0xDE, 0xAD, 0xBE, 0xEF];
    let mut c = Cursor::new(&bytes);
    assert_eq!(c.read_u16(), Ok(0x1234));
    assert_eq!(c.read_i16(), Ok(-2));
    assert_eq!(c.read_u32(), Ok(0xDEAD_BEEF));
    assert_eq!(c.read_u16(), Err(FontError::UnexpectedEndOfData));
}

#[test]
fn jump_to_end_is_allowed() {
    let bytes = [1, 2, 3, 4];
    let mut c = Cursor::new(&bytes);
    assert_eq!(c.jump(4), Ok(()));
    assert_eq!(c.read_u16(), Err(FontError::UnexpectedEndOfData));
    let mut c = Cursor::new(&bytes);
    assert_eq!(c.jump(5), Err(FontError::UnexpectedEndOfData));
    assert_eq!(c.read_u32(), Ok(0x0102_0304));
}

#[test]
fn copies_read_independently() {
    let bytes = [0, 1, 0, 2, 0, 3];
    let mut a = Cursor::new(&bytes);
    let mut b = a;
    assert_eq!(b.jump(2), Ok(()));
    assert_eq!(a.read_u16(), Ok(1));
    assert_eq!(b.read_u16(), Ok(2));
    assert_eq!(b.read_u16(), Ok(3));
    assert_eq!(a.read_u16(), Ok(2));
}

#[test]
fn short_reads_fail() {
    let bytes = [0xAB, 0xCD, 0xEF];
    let mut c = Cursor::new(&bytes);
    assert_eq!(c.read_u32(), Err(FontError::UnexpectedEndOfData));
    assert_eq!(c.read_u16(), Ok(0xABCD));
    assert_eq!(c.read_i16(), Err(FontError::UnexpectedEndOfData));
}
