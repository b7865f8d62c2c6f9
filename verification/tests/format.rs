use klu_core::read::{parse_archive, parse_header, parse_magic, ReadError};
use klu_core::types::{Archive, File, Header};

fn header_bytes(filename_length: u8, unused: u8, is_file: bool, filesize: u64, name: &[u8]) -> Vec<u8> {
    let mut out = Vec::new();
    out.push((filename_length << 3) | (unused << 1) | (if is_file { 1 } else { 0 }));
    out.extend_from_slice(&filesize.to_be_bytes());
    out.extend_from_slice(name);
    out
}

#[test]
fn magic_correct() {
    let data = b"KLU\0".to_vec();
    assert_eq!(parse_magic(&data, 0), Ok(4));
}

#[test]
fn magic_wrong() {
    let data = vec![0xDEu8, 0xAD, 0xBE, 0xEF];
    assert_eq!(parse_magic(&data, 0), Err(ReadError::WrongMagic(0xDEADBEEF, 0)));
}

#[test]
fn magic_short_input() {
    let data = vec![0x4Bu8, 0x4C];
    assert_eq!(parse_magic(&data, 0), Err(ReadError::WrongMagic(0xFFFFFFFF, 0)));
}

#[test]
fn header_correct() {
    let name = b"ceci est un long text de 28 ";
    assert_eq!(name.len(), 28);
    let data = header_bytes(28, 0, false, 74, name);
    let (header, used) = parse_header(&data, 0, data.len()).unwrap();
    assert_eq!(
        header,
        Header {
            filename_length: 28,
            unused: 0,
            is_file: false,
            filesize: 74,
            filename: name.to_vec(),
        }
    );
    assert_eq!(used, data.len());
}

#[test]
fn header_wrong() {
    // a one-byte filename that is not valid UTF-8
    let data = header_bytes(1, 0, false, 74, &[0xFF]);
    assert_eq!(parse_header(&data, 0, data.len()), Err(ReadError::IllegalFilename(0)));
}

#[test]
fn header_keeps_reserved_bits() {
    let data = header_bytes(2, 3, true, 5, b"ab");
    let (header, _) = parse_header(&data, 0, data.len()).unwrap();
    assert_eq!(header.unused, 3);
    assert_eq!(header.is_file, true);
    assert_eq!(header.filename_length, 2);
}

#[test]
fn header_missing_info_byte() {
    let data: Vec<u8> = Vec::new();
    assert_eq!(parse_header(&data, 0, 0), Err(ReadError::MissingHeaderInfoByte(0)));
}

#[test]
fn header_missing_file_size() {
    let data = vec![8u8, 0, 0];
    assert_eq!(parse_header(&data, 0, 3), Err(ReadError::MissingHeaderFileSize(0)));
}

#[test]
fn header_name_overruns_block() {
    // declares a 5-byte name but only 2 bytes follow the size field
    let data = header_bytes(5, 0, false, 0, b"ab");
    assert_eq!(parse_header(&data, 0, data.len()), Err(ReadError::Unknown(0)));
}

#[test]
fn archive_correct() {
    let name_a = b"ceci est un long text de 28 ";
    let name_b = b"ceci est un long text de 28b";
    let mut data = Vec::new();
    data.extend_from_slice(b"KLU\0");
    data.extend_from_slice(&74u64.to_be_bytes());
    data.extend_from_slice(&123u64.to_be_bytes());
    data.extend_from_slice(&header_bytes(28, 0, true, 10, name_a));
    data.extend_from_slice(&header_bytes(28, 0, false, 10, name_b));
    data.extend_from_slice(&[0u8; 10]); // payload of the first file
    data.extend_from_slice(&10u64.to_be_bytes()); // nested header-block size
    data.extend_from_slice(&header_bytes(1, 0, true, 2, b"B"));
    data.extend_from_slice(&[0x01, 0x02]); // payload of B
    assert_eq!(data.len(), 124);
    let (archive, used) = parse_archive(&data).unwrap();
    assert_eq!(used, 124);
    assert_eq!(
        archive,
        Archive {
            headersize: 74,
            filesize: 123,
            files: vec![
                File {
                    header: Header {
                        filename_length: 28,
                        unused: 0,
                        is_file: true,
                        filesize: 10,
                        filename: name_a.to_vec(),
                    },
                    absolute_offset: 94,
                    childs: vec![],
                },
                File {
                    header: Header {
                        filename_length: 28,
                        unused: 0,
                        is_file: false,
                        filesize: 10,
                        filename: name_b.to_vec(),
                    },
                    absolute_offset: 104,
                    childs: vec![File {
                        header: Header {
                            filename_length: 1,
                            unused: 0,
                            is_file: true,
                            filesize: 2,
                            filename: b"B".to_vec(),
                        },
                        absolute_offset: 122,
                        childs: vec![],
                    }],
                },
            ],
        }
    );
}

#[test]
fn archive_missing_info() {
    let data = b"KLU\0\0\0".to_vec();
    assert_eq!(parse_archive(&data), Err(ReadError::MissingArchiveInfo(4)));
    let mut data = b"KLU\0".to_vec();
    data.extend_from_slice(&0u64.to_be_bytes());
    data.extend_from_slice(&[0u8; 4]);
    assert_eq!(parse_archive(&data), Err(ReadError::MissingArchiveInfo(12)));
}

#[test]
fn archive_incomplete_header_block() {
    let mut data = b"KLU\0".to_vec();
    data.extend_from_slice(&50u64.to_be_bytes());
    data.extend_from_slice(&123u64.to_be_bytes());
    data.extend_from_slice(&[0u8; 10]); // only 10 of the declared 50 bytes
    assert_eq!(parse_archive(&data), Err(ReadError::IncompleteHeader(50, 20)));
}

#[test]
fn archive_file_jump_too_far() {
    // one file declaring 100 payload bytes, none present
    let mut data = b"KLU\0".to_vec();
    data.extend_from_slice(&10u64.to_be_bytes());
    data.extend_from_slice(&0u64.to_be_bytes());
    data.extend_from_slice(&header_bytes(1, 0, true, 100, b"a"));
    assert_eq!(data.len(), 30);
    assert_eq!(parse_archive(&data), Err(ReadError::FileJump(100, 30)));
}

#[test]
fn archive_missing_nested_size() {
    // one directory whose nested header-size field is cut off
    let mut data = b"KLU\0".to_vec();
    data.extend_from_slice(&10u64.to_be_bytes());
    data.extend_from_slice(&0u64.to_be_bytes());
    data.extend_from_slice(&header_bytes(1, 0, false, 8, b"d"));
    assert_eq!(parse_archive(&data), Err(ReadError::MissingFileInfo(30)));
}

#[test]
fn wrong_magic_rejects_before_anything_else() {
    // a buffer that is a valid archive except for its first byte
    let mut data = b"XLU\0".to_vec();
    data.extend_from_slice(&0u64.to_be_bytes());
    data.extend_from_slice(&0u64.to_be_bytes());
    match parse_archive(&data) {
        Err(ReadError::WrongMagic(found, 0)) => {
            assert_eq!(found, u32::from_be_bytes([b'X', b'L', b'U', 0]));
        }
        other => panic!("expected WrongMagic, got {:?}", other),
    }
}
