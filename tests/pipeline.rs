use std::io::{Read, Write};

use diary::container::{open, seal};
use diary::error::CipherError;

fn archive_note() -> Vec<u8> {
    let mut builder = tar::Builder::new(Vec::new());
    let mut header = tar::Header::new_gnu();
    header.set_size(5);
    header.set_mode(0o644);
    header.set_cksum();
    builder.append_data(&mut header, "note.md", &b"hello"[..]).unwrap();
    let archive = builder.into_inner().unwrap();
    let mut gz = flate2::write::GzEncoder::new(Vec::new(), flate2::Compression::new(6));
    gz.write_all(&archive).unwrap();
    gz.finish().unwrap()
}

fn extract(compressed: &[u8]) -> Vec<(String, Vec<u8>)> {
    let mut archive = tar::Archive::new(flate2::read::GzDecoder::new(compressed));
    let mut files = Vec::new();
    for entry in archive.entries().unwrap() {
        let mut entry = entry.unwrap();
        let path = entry.path().unwrap().to_string_lossy().into_owned();
        let mut content = Vec::new();
        entry.read_to_end(&mut content).unwrap();
        files.push((path, content));
    }
    files
}

#[test]
fn sealed_note_opens_with_the_right_password_only() {
    let compressed = archive_note();
    let container = seal(b"hunter2", &compressed).unwrap();

    let opened = open(b"hunter2", &container).unwrap();
    assert_eq!(
        extract(&opened),
        vec![("note.md".to_string(), b"hello".to_vec())]
    );

    assert_eq!(open(b"wrong", &container), Err(CipherError::Authentication));
}
