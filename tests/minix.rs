use peetos::fs::{read_block, read_inode, DirEntry, MinixFileSystem, SuperBlock, MAGIC, S_IFDIR, S_IFREG};

fn put16(img: &mut [u8], at: usize, v: u16) {
    img[at..at + 2].copy_from_slice(&v.to_le_bytes());
}

fn put32(img: &mut [u8], at: usize, v: u32) {
    img[at..at + 4].copy_from_slice(&v.to_le_bytes());
}

/// A small image: one inode-bitmap and one zone-bitmap block, inodes from
/// block 4 on; inode 1 the root directory, inode 2 a file of 2000 bytes in
/// a direct zone and a zone reached through the single indirect zone.
fn image() -> Vec<u8> {
    let mut img = vec![0u8; 16 * 1024];
    put32(&mut img, 1024, 32);
    put16(&mut img, 1024 + 6, 1);
    put16(&mut img, 1024 + 8, 1);
    put16(&mut img, 1024 + 24, MAGIC);
    let root = 4 * 1024;
    put16(&mut img, root, S_IFDIR | 0o755);
    put16(&mut img, root + 2, 2);
    put32(&mut img, root + 8, 128);
    put32(&mut img, root + 24, 10);
    put32(&mut img, 10 * 1024, 1);
    img[10 * 1024 + 4] = b'.';
    put32(&mut img, 10 * 1024 + 64, 1);
    img[10 * 1024 + 68] = b'.';
    img[10 * 1024 + 69] = b'.';
    let file = root + 64;
    put16(&mut img, file, S_IFREG | 0o644);
    put32(&mut img, file + 8, 2000);
    put32(&mut img, file + 24, 11);
    put32(&mut img, file + 24 + 7 * 4, 12);
    put32(&mut img, 12 * 1024, 13);
    for b in &mut img[11 * 1024..12 * 1024] {
        *b = b'a';
    }
    for b in &mut img[13 * 1024..14 * 1024] {
        *b = b'b';
    }
    img
}

#[test]
fn root_inode_is_a_directory_starting_with_dot() {
    let img = image();
    let root = MinixFileSystem::get_inode(&img, 1).unwrap();
    assert!(root.mode & S_IFDIR != 0);
    assert!(root.is_dir());
    let data = MinixFileSystem::read(&img, &root, 1024, 0);
    assert_eq!(data.len(), 128);
    let first = DirEntry::parse(&data, 0);
    assert_eq!(first.inode, 1);
    assert_eq!(first.name[0], b'.');
    assert!(first.name[1..].iter().all(|c| *c == 0));
    let second = DirEntry::parse(&data, 1);
    assert_eq!(&second.name[..3], b"..\0");
}

#[test]
fn file_contents_run_through_the_indirect_zone() {
    let img = image();
    let f = MinixFileSystem::get_inode(&img, 2).unwrap();
    assert!(!f.is_dir());
    let all = MinixFileSystem::read(&img, &f, 5000, 0);
    assert_eq!(all.len(), 2000);
    assert!(all[..1024].iter().all(|c| *c == b'a'));
    assert!(all[1024..].iter().all(|c| *c == b'b'));
    let mid = MinixFileSystem::read(&img, &f, 100, 1000);
    assert_eq!(mid.len(), 100);
    assert!(mid[..24].iter().all(|c| *c == b'a'));
    assert!(mid[24..].iter().all(|c| *c == b'b'));
}

#[test]
fn read_stops_at_the_last_zone() {
    let img = image();
    let f = MinixFileSystem::get_inode(&img, 2).unwrap();
    assert_eq!(MinixFileSystem::read(&img, &f, 2000, 1900).len(), 148);
    assert_eq!(MinixFileSystem::read(&img, &f, 10, 4096).len(), 0);
    assert_eq!(MinixFileSystem::read(&img, &f, 0, 0).len(), 0);
}

#[test]
fn read_inode_looks_up_then_reads() {
    let img = image();
    assert_eq!(read_inode(&img, 2, 3, 1023), b"abb".to_vec());
    assert_eq!(read_inode(&img, 0, 3, 0).len(), 0);
}

#[test]
fn no_magic_no_inode() {
    let img = vec![0u8; 8 * 1024];
    assert!(MinixFileSystem::get_inode(&img, 1).is_none());
    assert_eq!(read_inode(&img, 1, 10, 0).len(), 0);
}

#[test]
fn super_block_fields_decode() {
    let img = image();
    let sb = SuperBlock::parse(&img, 1024);
    assert_eq!(sb.magic, MAGIC);
    assert_eq!(sb.ninodes, 32);
    assert_eq!(sb.imap_blocks, 1);
    assert_eq!(sb.zmap_blocks, 1);
}

#[test]
fn blocks_past_the_end_read_as_zero() {
    let img = vec![7u8; 10];
    assert_eq!(read_block(&img, 8, 4), vec![7, 7, 0, 0]);
}
