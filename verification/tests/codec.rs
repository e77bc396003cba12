//! The record codec: exact encodings and the round trip.

use crablite::data_consts::{EMAIL_SIZE, ROW_SIZE, USERNAME_SIZE};
use crablite::table::Row;

fn zero_padded(text: &str, width: usize) -> Vec<u8> {
    let mut v = text.as_bytes().to_vec();
    v.resize(width, 0);
    v
}

#[test]
fn round_trip_preserves_record() {
    let row = Row::new(7, "alice", "a@x.com");
    let mut buf = vec![0u8; ROW_SIZE];
    row.serialize_row(&mut buf);
    let back = Row::deserialize_row(&buf);
    assert_eq!(back.id, 7);
    assert_eq!(back.username.to_vec(), zero_padded("alice", USERNAME_SIZE));
    assert_eq!(back.email.to_vec(), zero_padded("a@x.com", EMAIL_SIZE));
}

#[test]
fn round_trip_widest_fields() {
    let name = "n".repeat(USERNAME_SIZE);
    let mail = "m".repeat(EMAIL_SIZE);
    let row = Row::new(u32::MAX, &name, &mail);
    let mut buf = vec![0u8; ROW_SIZE];
    row.serialize_row(&mut buf);
    let back = Row::deserialize_row(&buf);
    assert_eq!(back.id, u32::MAX);
    assert_eq!(back.username.to_vec(), name.as_bytes().to_vec());
    assert_eq!(back.email.to_vec(), mail.as_bytes().to_vec());
}

#[test]
fn encoding_layout_is_exact() {
    let row = Row::new(0x0403_0201, "ab", "xyz");
    let mut buf = vec![0u8; ROW_SIZE];
    row.serialize_row(&mut buf);
    assert_eq!(buf.len(), 291);
    // id, little-endian
    assert_eq!(&buf[0..4], &[0x01, 0x02, 0x03, 0x04]);
    // username: "ab" then zeros out to 32 bytes
    assert_eq!(&buf[4..6], b"ab");
    assert!(buf[6..36].iter().all(|&b| b == 0));
    // email: "xyz" then zeros out to 255 bytes
    assert_eq!(&buf[36..39], b"xyz");
    assert!(buf[39..291].iter().all(|&b| b == 0));
}

#[test]
fn deserialize_reads_little_endian_id() {
    let mut buf = vec![0u8; ROW_SIZE];
    buf[0] = 0x2A;
    buf[1] = 0x00;
    buf[2] = 0x01;
    let row = Row::deserialize_row(&buf);
    assert_eq!(row.id, 0x0001_002A);
}

#[test]
fn deserialize_into_existing_record() {
    let source_row = Row::new(9, "bob", "b@y.org");
    let mut buf = vec![0u8; ROW_SIZE];
    source_row.serialize_row(&mut buf);
    let mut dest = Row::default();
    Row::deserialize_row_existing_ref(&buf, &mut dest);
    assert_eq!(dest.id, 9);
    assert_eq!(dest.username.to_vec(), zero_padded("bob", USERNAME_SIZE));
    assert_eq!(dest.email.to_vec(), zero_padded("b@y.org", EMAIL_SIZE));
}

#[test]
fn default_row_is_all_zero() {
    let row = Row::default();
    assert_eq!(row.id, 0);
    assert!(row.username.iter().all(|&b| b == 0));
    assert!(row.email.iter().all(|&b| b == 0));
}
