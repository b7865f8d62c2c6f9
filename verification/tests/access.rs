use klu_core::read::parse_archive;
use klu_core::types::ArchiveFile;
use klu_core::vfile::{SeekError, SeekFrom, VirtualFile};
use klu_core::write::{Archive, File};

fn leaf(name: &[u8], content: Vec<u8>) -> File {
    File::from_parts(name.to_vec(), true, content, Vec::new()).unwrap()
}

fn dir(name: &[u8], childs: Vec<File>) -> File {
    File::from_parts(name.to_vec(), false, Vec::new(), childs).unwrap()
}

/// The example archive: top-level file "a" (10 bytes of 0xAA) and
/// directory "b" holding file "c" (bytes 0x01 0x02).
fn example_bytes() -> Vec<u8> {
    let a = leaf(b"a", vec![0xAA; 10]);
    let c = leaf(b"c", vec![0x01, 0x02]);
    let b = dir(b"b", vec![c]);
    Archive::from_childs(vec![a, b]).unwrap().to_bytes()
}

fn rooted_bytes() -> Vec<u8> {
    let c = leaf(b"c", vec![9, 8, 7]);
    let b = dir(b"b", vec![c]);
    let root = dir(b"root", vec![b]);
    Archive::from_childs(vec![root]).unwrap().to_bytes()
}

#[test]
fn resolve_finds_nested_file() {
    let bytes = rooted_bytes();
    let (archive, _) = parse_archive(&bytes).unwrap();
    let c = archive.get_with_path(b"root/b/c").unwrap();
    assert_eq!(c.header.filename, b"c".to_vec());
    assert_eq!(c.header.is_file, true);
    assert_eq!(c.header.filesize, 3);
}

#[test]
fn resolve_misses_absent_file() {
    let bytes = rooted_bytes();
    let (archive, _) = parse_archive(&bytes).unwrap();
    assert!(archive.get_with_path(b"root/b/x").is_none());
    assert!(archive.get_with_path(b"nope").is_none());
    assert!(archive.get_with_path(b"").is_none());
    // a mismatch at the first component does not search siblings
    assert!(archive.get_with_path(b"b/c").is_none());
}

#[test]
fn path_exist_accepts_trailing_slash() {
    let bytes = rooted_bytes();
    let (archive, _) = parse_archive(&bytes).unwrap();
    assert!(archive.path_exist(b"root/b/"));
    assert!(archive.path_exist(b"root/b/c"));
    assert!(!archive.path_exist(b"root/x/"));
}

#[test]
fn paths_lists_all_entries() {
    let bytes = example_bytes();
    let (archive, _) = parse_archive(&bytes).unwrap();
    let paths = archive.paths();
    assert_eq!(
        paths,
        vec![b"a".to_vec(), b"b/".to_vec(), b"b/c".to_vec()]
    );
}

#[test]
fn example_archive_extracts_to_expected_files() {
    let bytes = example_bytes();
    let (archive, _) = parse_archive(&bytes).unwrap();
    assert_eq!(archive.files.len(), 2);
    assert_eq!(archive.files[1].header.is_file, false);
    assert_eq!(archive.files[1].childs.len(), 1);
    assert_eq!(archive.files[1].childs[0].header.filename, b"c".to_vec());
    assert_eq!(archive.files[1].childs[0].header.is_file, true);
    assert_eq!(archive.files[1].childs[0].header.filesize, 2);

    let af = ArchiveFile { archive };
    let actions = af.extract(b".");
    assert_eq!(actions.len(), 3);
    assert_eq!(actions[0].path, b"./a".to_vec());
    assert!(actions[0].is_file);
    let a0 = actions[0].offset as usize;
    assert_eq!(&bytes[a0..a0 + actions[0].size as usize], &[0xAA; 10]);
    assert_eq!(actions[1].path, b"./b".to_vec());
    assert!(!actions[1].is_file);
    assert_eq!(actions[2].path, b"./b/c".to_vec());
    assert!(actions[2].is_file);
    let c0 = actions[2].offset as usize;
    assert_eq!(&bytes[c0..c0 + actions[2].size as usize], &[0x01, 0x02]);
}

#[test]
fn two_virtual_files_are_independent() {
    let bytes = example_bytes();
    let (archive, _) = parse_archive(&bytes).unwrap();
    let mut v1 = archive.get_virtual(b"a").unwrap();
    let mut v2 = archive.get_virtual(b"a").unwrap();

    // interleave reads; each sees the full 10 bytes of "a"
    let mut got1 = Vec::new();
    let mut got2 = Vec::new();
    got1.extend(v1.read(&bytes, 3));
    got2.extend(v2.read(&bytes, 7));
    got1.extend(v1.read(&bytes, 4));
    got2.extend(v2.read(&bytes, 100));
    got1.extend(v1.read(&bytes, 100));
    assert_eq!(got1, vec![0xAA; 10]);
    assert_eq!(got2, vec![0xAA; 10]);
    // at the end of the range a read returns 0 bytes, with no error
    assert_eq!(v1.read(&bytes, 5), Vec::<u8>::new());
}

#[test]
fn virtual_file_get_slice_returns_data() {
    let bytes = example_bytes();
    let (archive, _) = parse_archive(&bytes).unwrap();
    let mut v = archive.get_virtual(b"b/c").unwrap();
    assert_eq!(v.get_slice(&bytes), vec![0x01, 0x02]);
    assert_eq!(v.get_slice(&bytes), Vec::<u8>::new());
}

#[test]
fn seek_semantics() {
    let mut v = VirtualFile::from_sizes((100, 10));
    // Start clamps to the range length
    assert_eq!(v.seek(SeekFrom::Start(4)), Ok(4));
    assert_eq!(v.seek(SeekFrom::Start(50)), Ok(10));
    // Current moves relative to the position and rejects going before 0
    assert_eq!(v.seek(SeekFrom::Start(2)), Ok(2));
    assert_eq!(v.seek(SeekFrom::Current(3)), Ok(5));
    assert_eq!(v.seek(SeekFrom::Current(-5)), Ok(0));
    assert_eq!(v.seek(SeekFrom::Current(-1)), Err(SeekError::InvalidArgument));
    assert_eq!(v.seek(SeekFrom::Current(100)), Ok(10));
    // End: non-negative clamps to the length, negative counts back
    assert_eq!(v.seek(SeekFrom::End(0)), Ok(10));
    assert_eq!(v.seek(SeekFrom::End(-4)), Ok(6));
    assert_eq!(v.seek(SeekFrom::End(-11)), Err(SeekError::InvalidArgument));
}

#[test]
fn read_after_seek_reads_from_position() {
    let bytes = rooted_bytes();
    let (archive, _) = parse_archive(&bytes).unwrap();
    let mut v = archive.get_virtual(b"root/b/c").unwrap();
    assert_eq!(v.seek(SeekFrom::Start(1)), Ok(1));
    assert_eq!(v.read(&bytes, 10), vec![8, 7]);
}

#[test]
fn get_virtual_misses_absent_path() {
    let bytes = rooted_bytes();
    let (archive, _) = parse_archive(&bytes).unwrap();
    assert!(archive.get_virtual(b"root/b/x").is_none());
}

#[test]
fn extract_file_plans_one_subtree() {
    let bytes = rooted_bytes();
    let (archive, _) = parse_archive(&bytes).unwrap();
    let actions = archive.extract_file(b"root/b", b"out/b").unwrap();
    assert_eq!(actions.len(), 2);
    assert_eq!(actions[0].path, b"out/b".to_vec());
    assert!(!actions[0].is_file);
    assert_eq!(actions[1].path, b"out/b/c".to_vec());
    assert!(actions[1].is_file);
    let c0 = actions[1].offset as usize;
    assert_eq!(&bytes[c0..c0 + actions[1].size as usize], &[9, 8, 7]);
    assert!(archive.extract_file(b"root/x", b"out/x").is_none());
}

#[test]
fn extract_options_carry_their_fields() {
    let opts = klu_core::types::ExtractOption::new(b"dest".to_vec());
    assert_eq!(opts.base_path, b"dest".to_vec());
    assert!(opts.replace);
    let opts = opts.replace(false);
    assert!(!opts.replace);
    assert_eq!(opts.base_path, b"dest".to_vec());
}

#[test]
fn file_paths_lists_descendants() {
    let bytes = rooted_bytes();
    let (archive, _) = parse_archive(&bytes).unwrap();
    let root = archive.get_with_path(b"root").unwrap();
    let mut v: Vec<Vec<u8>> = Vec::new();
    root.paths(&mut v, b"root/");
    assert_eq!(v, vec![b"root/b/".to_vec(), b"root/b/c".to_vec()]);
}
