use gzip::flags::Flags;

#[test]
fn flags_each_bit() {
    let f = Flags(0b0001_1111);
    assert!(f.data_is_ascii());
    assert!(f.crc_16_present());
    assert!(f.extra_fields_present());
    assert!(f.filename_present());
    assert!(f.file_comment_present());
    let g = Flags(0b1110_0000);
    assert!(!g.data_is_ascii());
    assert!(!g.crc_16_present());
    assert!(!g.extra_fields_present());
    assert!(!g.filename_present());
    assert!(!g.file_comment_present());
}
