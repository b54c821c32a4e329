use chime::sample::int_samples_le;
use chime::SampleFormat;

#[test]
fn sample_widths() {
    assert_eq!(SampleFormat::U8.bytes_per_sample(), 1);
    assert_eq!(SampleFormat::I24.bytes_per_sample(), 3);
    assert_eq!(SampleFormat::F64.bytes_per_sample(), 8);
    assert_eq!(SampleFormat::I24.bits_per_sample(), 24);
    assert_eq!(SampleFormat::F32.bits_per_sample(), 32);
    assert!(SampleFormat::F32.is_float());
    assert!(!SampleFormat::I32.is_float());
}

#[test]
fn integer_samples_little_endian() {
    assert_eq!(int_samples_le(&[0, 128, 255], SampleFormat::U8), vec![-128, 0, 127]);
    assert_eq!(int_samples_le(&[0x00, 0x80, 0xFF, 0x7F], SampleFormat::I16), vec![-32768, 32767]);
    assert_eq!(int_samples_le(&[0x00, 0x00, 0x80, 0x01, 0x00, 0x00], SampleFormat::I24), vec![-8_388_608, 1]);
    assert_eq!(int_samples_le(&[0xFF, 0xFF, 0xFF, 0xFF, 0x00, 0x00, 0x00, 0x80], SampleFormat::I32), vec![-1, i32::MIN]);
    assert!(int_samples_le(&[], SampleFormat::I16).is_empty());
}
