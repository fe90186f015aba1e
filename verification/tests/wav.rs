use varuna::wav::WavReader;

#[test]
fn int_full_scale_values() {
    assert_eq!(WavReader::int_full_scale(8), 128);
    assert_eq!(WavReader::int_full_scale(16), 32768);
    assert_eq!(WavReader::int_full_scale(24), 8_388_608);
    assert_eq!(WavReader::int_full_scale(32), 2_147_483_648);
    assert_eq!(WavReader::int_full_scale(1), 1);
    assert_eq!(WavReader::int_full_scale(64), i64::MIN);
}
