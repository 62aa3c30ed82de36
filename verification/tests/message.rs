use batch_encryption::message::{decimal_bytes, mock_content};

#[test]
fn decimal_digits_of_slot_numbers() {
    assert_eq!(decimal_bytes(0), b"0".to_vec());
    assert_eq!(decimal_bytes(7), b"7".to_vec());
    assert_eq!(decimal_bytes(42), b"42".to_vec());
    assert_eq!(decimal_bytes(1000), b"1000".to_vec());
    assert_eq!(decimal_bytes(18446744073709551615), b"18446744073709551615".to_vec());
}

#[test]
fn mock_messages_cycle_through_four_kinds() {
    let m0 = mock_content(0);
    assert_eq!(m0.ts_ms, 1_730_000_000_000);
    assert_eq!(String::from_utf8(m0.text.unwrap()).unwrap(), "hey, slot 0 text-only message ⚡");
    assert!(m0.attachment.is_none());

    let m1 = mock_content(1);
    assert_eq!(m1.ts_ms, 1_730_000_060_000);
    assert!(m1.text.is_none());
    let a1 = m1.attachment.unwrap();
    assert_eq!(a1.mime, b"image/jpeg".to_vec());
    assert_eq!(a1.size, 245_000);

    let m6 = mock_content(6);
    assert_eq!(m6.ts_ms, 1_730_000_360_000);
    assert_eq!(
        String::from_utf8(m6.text.unwrap()).unwrap(),
        "slot 6: just a longer thought-stream message that takes up some real bytes so we're not benching tiny payloads only"
    );
    assert!(m6.attachment.is_none());

    let m11 = mock_content(11);
    assert_eq!(String::from_utf8(m11.text.unwrap()).unwrap(), "check this out — slot 11");
    let a11 = m11.attachment.unwrap();
    assert_eq!(a11.mime, b"video/mp4".to_vec());
    assert_eq!(a11.size, 4_800_000);
}
