use std::io::Read;

use logroller::codec::{compress_bytes, encoded};
use logroller::{Compression, LogRollerError};

fn gunzip(stream: &[u8]) -> Vec<u8> {
    let mut out = Vec::new();
    flate2::read::GzDecoder::new(stream).read_to_end(&mut out).unwrap();
    out
}

fn unxz(stream: &[u8]) -> Vec<u8> {
    let mut out = Vec::new();
    xz2::read::XzDecoder::new(stream).read_to_end(&mut out).unwrap();
    out
}

fn samples() -> Vec<Vec<u8>> {
    vec![Vec::new(), b"hello".to_vec(), vec![7; 100_000], (0..=255).cycle().take(70_000).collect()]
}

#[test]
fn gzip_streams_hold_the_bytes() {
    for data in samples() {
        let stream = compress_bytes(&Compression::Gzip, &data).unwrap();
        assert_eq!(&stream[..2], &[0x1f, 0x8b]);
        assert_eq!(gunzip(&stream), data);
        assert_eq!(compress_bytes(&Compression::Gzip, &data).unwrap(), stream);
    }
}

#[test]
fn xz_streams_hold_the_bytes() {
    for data in samples() {
        for level in [0, 6, 9] {
            let stream = compress_bytes(&Compression::XZ(level), &data).unwrap();
            assert_eq!(&stream[..6], &[0xfd, b'7', b'z', b'X', b'Z', 0]);
            assert_eq!(unxz(&stream), data);
        }
    }
}

#[test]
fn repeated_bytes_take_less_room() {
    let data = vec![b'x'; 100_000];
    assert!(compress_bytes(&Compression::Gzip, &data).unwrap().len() < 1000);
    assert!(compress_bytes(&Compression::XZ(6), &data).unwrap().len() < 1000);
}

#[test]
fn an_encoder_error_is_an_io_error() {
    assert_eq!(encoded(Ok(vec![1, 2])).unwrap(), vec![1, 2]);
    match encoded(Err(String::from("no memory"))) {
        Err(LogRollerError::FileIOError(message)) => assert_eq!(message, "no memory"),
        other => panic!("{:?}", other),
    }
}
