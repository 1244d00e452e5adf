use std::io::Write;

use flate2::Compression;
use flate2::write::{GzEncoder, ZlibEncoder};
use waview::WaveError;
use waview::decode::decode;
use waview::ingest;

fn gzip(bytes: &[u8]) -> Vec<u8> {
    let mut enc = GzEncoder::new(Vec::new(), Compression::default());
    enc.write_all(bytes).unwrap();
    enc.finish().unwrap()
}

fn zlib(bytes: &[u8], level: Compression) -> Vec<u8> {
    let mut enc = ZlibEncoder::new(Vec::new(), level);
    enc.write_all(bytes).unwrap();
    enc.finish().unwrap()
}

#[test]
fn plaintext_passes_through() {
    let bytes = b"time,value\n0,1\n".to_vec();
    assert_eq!(decode(&bytes).unwrap(), bytes);
}

#[test]
fn gzip_is_decoded() {
    let text = b"time,value\n0,1\n1,2\n2,3";
    assert_eq!(decode(&gzip(text)).unwrap(), text.to_vec());
}

#[test]
fn zlib_is_decoded_at_every_level() {
    let text = b"time,value\n0,1\n1,2\n2,3";
    for level in [Compression::none(), Compression::default(), Compression::best()] {
        let packed = zlib(text, level);
        assert_eq!(packed[0], 0x78);
        assert_eq!(decode(&packed).unwrap(), text.to_vec());
    }
}

#[test]
fn scenario_gzip_equals_plain() {
    let text = b"time,value\n0,1\n1,2\n2,3";
    let plain = ingest(Some(text.to_vec())).unwrap();
    let packed = ingest(Some(gzip(text))).unwrap();
    assert_eq!(plain.len(), packed.len());
    assert_eq!(plain.get("time"), packed.get("time"));
    assert_eq!(plain.get("value"), packed.get("value"));
    assert_eq!(
        packed.get("time").unwrap(),
        &vec!["0".to_string(), "1".to_string(), "2".to_string()]
    );
}

#[test]
fn zlib_roundtrip_equals_plain() {
    let text = b"a,b\n1,2\n3,4\n";
    let plain = ingest(Some(text.to_vec())).unwrap();
    let packed = ingest(Some(zlib(text, Compression::best()))).unwrap();
    assert_eq!(plain.len(), packed.len());
    assert_eq!(plain.get("a"), packed.get("a"));
    assert_eq!(plain.get("b"), packed.get("b"));
}

#[test]
fn multi_member_gzip_is_read_whole() {
    let mut joined = gzip(b"a,b\n1,2\n");
    joined.extend_from_slice(&gzip(b"3,4\n"));
    let w = ingest(Some(joined)).unwrap();
    assert_eq!(w.get("a").unwrap(), &vec!["1".to_string(), "3".to_string()]);
    assert_eq!(w.get("b").unwrap(), &vec!["2".to_string(), "4".to_string()]);
}

#[test]
fn corrupt_gzip_is_a_hard_failure() {
    let bytes = vec![0x1f, 0x8b, 0x00, 0x11, 0x22, 0x33];
    assert_eq!(decode(&bytes).err().unwrap(), WaveError::Decompression);
}

#[test]
fn corrupt_zlib_is_a_hard_failure() {
    let mut packed = zlib(b"time,value\n0,1\n", Compression::default());
    packed.truncate(packed.len() - 3);
    assert_eq!(decode(&packed).err().unwrap(), WaveError::Decompression);
}

#[test]
fn signature_decides_not_the_name() {
    // Bytes that merely start like text are parsed as text even if a caller
    // believed them compressed; only the leading bytes decide.
    let bytes = b"x\n1\n".to_vec();
    let w = ingest(Some(bytes)).unwrap();
    assert_eq!(w.get("x").unwrap(), &vec!["1".to_string()]);
}
