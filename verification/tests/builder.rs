use klu_core::read::parse_archive;
use klu_core::utils::{slice_to_u64, split_in_place, u64_to_slice, utf8_check};
use klu_core::write::{Archive, File, WriteError};

fn leaf(name: &[u8], content: Vec<u8>) -> File {
    File::from_parts(name.to_vec(), true, content, Vec::new()).unwrap()
}

#[test]
fn be_u64_round_trip() {
    let bytes = u64_to_slice(0x0102030405060708);
    assert_eq!(bytes, vec![1, 2, 3, 4, 5, 6, 7, 8]);
    assert_eq!(slice_to_u64(&bytes), 0x0102030405060708);
    assert_eq!(slice_to_u64(&u64_to_slice(u64::MAX)), u64::MAX);
    assert_eq!(slice_to_u64(&u64_to_slice(0)), 0);
}

#[test]
fn split_in_place_splits() {
    let mut v = vec![1u8, 2, 3, 4, 5];
    let head = split_in_place(&mut v, 2);
    assert_eq!(head, vec![1, 2]);
    assert_eq!(v, vec![3, 4, 5]);
}

#[test]
fn utf8_check_accepts_and_rejects() {
    assert!(utf8_check(b"plain ascii"));
    assert!(utf8_check("héllo wörld".as_bytes()));
    assert!(utf8_check("日本語".as_bytes()));
    assert!(!utf8_check(&[0xFF]));
    assert!(!utf8_check(&[0xC2])); // truncated 2-byte sequence
    assert!(!utf8_check(&[0xED, 0xA0, 0x80])); // surrogate range
    assert!(!utf8_check(&[0xC0, 0xAF])); // overlong form
}

#[test]
fn filename_of_31_bytes_is_accepted() {
    let name = [b'x'; 31];
    let f = File::from_parts(name.to_vec(), true, vec![1, 2, 3], Vec::new()).unwrap();
    assert_eq!(f.filename, name.to_vec());
    assert_eq!(f.filesize, 3);
}

#[test]
fn filename_of_32_bytes_is_rejected() {
    let name = [b'x'; 32];
    let r = File::from_parts(name.to_vec(), true, vec![1, 2, 3], Vec::new());
    assert_eq!(r, Err(WriteError::FileNameTooLong(name.to_vec())));
}

#[test]
fn filename_not_utf8_is_rejected() {
    let name = vec![0xFFu8, 0xFE];
    let r = File::from_parts(name.clone(), true, Vec::new(), Vec::new());
    assert_eq!(r, Err(WriteError::FilenameNotUTF8(name)));
}

#[test]
fn directory_sizes_are_computed_bottom_up() {
    let c = leaf(b"c", vec![1, 2]);
    assert_eq!(c.filesize, 2);
    let b = File::from_parts(b"b".to_vec(), false, Vec::new(), vec![c]).unwrap();
    // 8 (nested size field) + (1 + 8 + 1) header of "c" + 2 payload bytes
    assert_eq!(b.filesize, 20);
    assert_eq!(b.header_size(), 10);
    assert_eq!(b.file_size(), 20);
}

#[test]
fn update_size_recomputes() {
    let c = leaf(b"cc", vec![1, 2, 3]);
    let mut d = File::from_parts(b"d".to_vec(), false, Vec::new(), vec![c]).unwrap();
    d.filesize = 0;
    let d = d.update_size();
    // 8 + (1 + 8 + 2) + 3
    assert_eq!(d.filesize, 22);
}

#[test]
fn header_bytes_are_exact() {
    let f = leaf(b"ab", vec![0xAA; 5]);
    let h = f.header();
    let mut expected = vec![(2u8 << 3) | 1];
    expected.extend_from_slice(&5u64.to_be_bytes());
    expected.extend_from_slice(b"ab");
    assert_eq!(h, expected);
    assert_eq!(f.header_len(), 11);
}

#[test]
fn archive_round_trip_preserves_tree() {
    let a = leaf(b"a", vec![0xAA; 10]);
    let c = leaf(b"c", vec![0x01, 0x02]);
    let b = File::from_parts(b"b".to_vec(), false, Vec::new(), vec![c]).unwrap();
    let archive = Archive::from_childs(vec![a, b]).unwrap();
    let bytes = archive.to_bytes();
    assert_eq!(bytes.len() as u64, archive.filesize);

    let (parsed, used) = parse_archive(&bytes).unwrap();
    assert_eq!(used, bytes.len());
    assert_eq!(parsed.headersize, archive.headersize);
    assert_eq!(parsed.filesize, archive.filesize);
    assert_eq!(parsed.files.len(), 2);

    let pa = &parsed.files[0];
    assert_eq!(pa.header.filename, b"a".to_vec());
    assert_eq!(pa.header.is_file, true);
    assert_eq!(pa.header.filesize, 10);
    assert!(pa.childs.is_empty());
    // the payload range of "a" holds its bytes
    let start = pa.absolute_offset as usize;
    assert_eq!(&bytes[start..start + 10], &[0xAA; 10]);

    let pb = &parsed.files[1];
    assert_eq!(pb.header.filename, b"b".to_vec());
    assert_eq!(pb.header.is_file, false);
    assert_eq!(pb.childs.len(), 1);
    let pc = &pb.childs[0];
    assert_eq!(pc.header.filename, b"c".to_vec());
    assert_eq!(pc.header.is_file, true);
    assert_eq!(pc.header.filesize, 2);
    let cstart = pc.absolute_offset as usize;
    assert_eq!(&bytes[cstart..cstart + 2], &[0x01, 0x02]);

    // offset monotonicity across the two top-level siblings
    assert_eq!(
        pb.absolute_offset,
        pa.absolute_offset + pa.header.filesize
    );
}

#[test]
fn empty_file_and_empty_directory_round_trip() {
    let e = leaf(b"empty", Vec::new());
    assert_eq!(e.filesize, 0);
    let d = File::from_parts(b"dir".to_vec(), false, Vec::new(), Vec::new()).unwrap();
    assert_eq!(d.filesize, 8);
    let archive = Archive::from_childs(vec![e, d]).unwrap();
    let bytes = archive.to_bytes();
    let (parsed, used) = parse_archive(&bytes).unwrap();
    assert_eq!(used, bytes.len());
    assert_eq!(parsed.files.len(), 2);
    assert_eq!(parsed.files[0].header.filesize, 0);
    assert_eq!(parsed.files[1].header.filesize, 8);
    assert!(parsed.files[1].childs.is_empty());
}

#[test]
fn duplicate_names_keep_order() {
    // no sorting, no deduplication: both entries survive in order
    let one = leaf(b"same", vec![1]);
    let two = leaf(b"same", vec![2, 2]);
    let archive = Archive::from_childs(vec![one, two]).unwrap();
    let bytes = archive.to_bytes();
    let (parsed, _) = parse_archive(&bytes).unwrap();
    assert_eq!(parsed.files.len(), 2);
    assert_eq!(parsed.files[0].header.filesize, 1);
    assert_eq!(parsed.files[1].header.filesize, 2);
}
