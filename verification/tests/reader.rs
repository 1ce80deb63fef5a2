use gzip::reader::ByteReader;

#[test]
fn read_exact_fills_buffer_and_advances() {
    let mut r = ByteReader::new(vec![1, 2, 3, 4, 5]);
    let mut buf = vec![0u8; 3];
    assert!(r.read_exact(&mut buf).is_ok());
    assert_eq!(buf, vec![1, 2, 3]);
    assert_eq!(r.remaining(), 2);
}

#[test]
fn read_exact_short_consumes_nothing() {
    let mut r = ByteReader::new(vec![1, 2]);
    let mut buf = vec![9u8; 3];
    assert!(r.read_exact(&mut buf).is_err());
    assert_eq!(buf, vec![9, 9, 9]);
    assert_eq!(r.remaining(), 2);
}

#[test]
fn read_exact_empty_buffer_takes_nothing() {
    let mut r = ByteReader::new(vec![7]);
    let mut buf: Vec<u8> = Vec::with_capacity(10);
    assert!(r.read_exact(&mut buf).is_ok());
    assert!(buf.is_empty());
    assert_eq!(r.remaining(), 1);
}

#[test]
fn read_until_stops_after_delimiter() {
    let mut r = ByteReader::new(vec![b'a', b'b', 0, b'c']);
    let mut buf = vec![b'x'];
    assert_eq!(r.read_until(0, &mut buf), 3);
    assert_eq!(buf, vec![b'x', b'a', b'b', 0]);
    assert_eq!(r.remaining(), 1);
}

#[test]
fn read_until_without_delimiter_takes_everything() {
    let mut r = ByteReader::new(vec![b'a', b'b']);
    let mut buf = Vec::new();
    assert_eq!(r.read_until(0, &mut buf), 2);
    assert_eq!(buf, vec![b'a', b'b']);
    assert_eq!(r.remaining(), 0);
    assert_eq!(r.read_until(0, &mut buf), 0);
}
