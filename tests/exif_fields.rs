use exif_sort::datetime::{DateTimeError, PhotoDate};

fn entry(out: &mut Vec<u8>, tag: u16, kind: u16, count: u32, value: [u8; 4]) {
    out.extend_from_slice(&tag.to_le_bytes());
    out.extend_from_slice(&kind.to_le_bytes());
    out.extend_from_slice(&count.to_le_bytes());
    out.extend_from_slice(&value);
}

/// A little-endian TIFF block with DateTime in IFD0 and, where given,
/// SubSecTime (at most three characters) in the Exif IFD.
fn tiff(date_time: &str, subsec: Option<&str>) -> Vec<u8> {
    let dt = format!("{date_time}\0");
    let mut out = vec![b'I', b'I', 42, 0, 8, 0, 0, 0];
    let ifd0_len = 2 + 2 * 12 + 4;
    let dt_at = 8 + ifd0_len;
    let exif_at = dt_at + dt.len() as u32;
    out.extend_from_slice(&2u16.to_le_bytes());
    entry(&mut out, 0x0132, 2, dt.len() as u32, dt_at.to_le_bytes());
    entry(&mut out, 0x8769, 4, 1, exif_at.to_le_bytes());
    out.extend_from_slice(&0u32.to_le_bytes());
    out.extend_from_slice(dt.as_bytes());
    match subsec {
        Some(ss) => {
            let mut v = [0u8; 4];
            v[..ss.len()].copy_from_slice(ss.as_bytes());
            out.extend_from_slice(&1u16.to_le_bytes());
            entry(&mut out, 0x9290, 2, ss.len() as u32 + 1, v);
        }
        None => out.extend_from_slice(&0u16.to_le_bytes()),
    }
    out.extend_from_slice(&0u32.to_le_bytes());
    out
}

fn decode(bytes: Vec<u8>) -> Result<PhotoDate, DateTimeError> {
    let exif = exif::Reader::new().read_raw(bytes).unwrap();
    PhotoDate::new(&exif)
}

#[test]
fn key_from_exif_container() {
    let k = decode(tiff("2023:06:01 10:20:30", Some("050"))).unwrap();
    assert_eq!((k.year, k.month, k.day), (2023, 6, 1));
    assert_eq!((k.hour, k.minute, k.second, k.millis), (10, 20, 30, 50));
    assert_eq!(k.folder_name(), "2023_06_01");
}

#[test]
fn exif_container_without_subsec() {
    assert_eq!(decode(tiff("2023:06:01 10:20:30", None)), Err(DateTimeError::NoMilliseconds));
}
