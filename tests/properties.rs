use file_system::{FileSystem, FileSystemError, FileSystemResult, RamDisk};

type SmallFs = FileSystem<16, 64, 255, 8, 512, 32, 8>;

fn fresh() -> SmallFs {
    FileSystem::new(RamDisk::new())
}

fn read_all(sys: &mut SmallFs, name: &str) -> Vec<u8> {
    let fd = sys.open_read(name).unwrap();
    let mut out = Vec::new();
    let mut buffer = [0u8; 7];
    loop {
        let n = sys.read(fd, &mut buffer).unwrap();
        out.extend_from_slice(&buffer[0..n]);
        if n < buffer.len() {
            sys.close(fd).unwrap();
            return out;
        }
    }
}

fn pattern(len: usize) -> Vec<u8> {
    (0..len).map(|i| (i * 7 + 3) as u8).collect()
}

#[test]
fn round_trip_various_lengths() {
    for len in [0usize, 1, 63, 64, 65, 128, 300, 511, 512] {
        let mut sys = fresh();
        let data = pattern(len);
        let fd = sys.open_create("f").unwrap();
        sys.write(fd, &data).unwrap();
        sys.close(fd).unwrap();
        assert_eq!(read_all(&mut sys, "f"), data);
    }
}

#[test]
fn create_twice_truncates() {
    let mut sys = fresh();
    let fd = sys.open_create("a").unwrap();
    sys.write(fd, &pattern(200)).unwrap();
    sys.close(fd).unwrap();
    let fd = sys.open_create("a").unwrap();
    sys.write(fd, b"second").unwrap();
    sys.close(fd).unwrap();
    assert_eq!(read_all(&mut sys, "a"), b"second".to_vec());
}

#[test]
fn truncation_returns_blocks() {
    let mut sys = fresh();
    for _ in 0..100 {
        let fd = sys.open_create("a").unwrap();
        sys.write(fd, &pattern(512)).unwrap();
        sys.close(fd).unwrap();
    }
    assert_eq!(read_all(&mut sys, "a"), pattern(512));
}

#[test]
fn append_concatenates() {
    let mut sys = fresh();
    let fd = sys.open_create("a").unwrap();
    sys.write(fd, b"hello ").unwrap();
    sys.close(fd).unwrap();
    let fd = sys.open_append("a").unwrap();
    sys.write(fd, &pattern(100)).unwrap();
    sys.close(fd).unwrap();
    let mut expected = b"hello ".to_vec();
    expected.extend_from_slice(&pattern(100));
    assert_eq!(read_all(&mut sys, "a"), expected);
}

#[test]
fn append_missing_file_fails() {
    let mut sys = fresh();
    assert!(sys.open_append("none") == FileSystemResult::Failure(FileSystemError::FileNotFound));
}

#[test]
fn exact_maximum_fits_one_more_fails() {
    let mut sys = fresh();
    let fd = sys.open_create("a").unwrap();
    let max = sys.max_file_size();
    assert_eq!(max, 512);
    sys.write(fd, &pattern(max)).unwrap();
    assert!(sys.write(fd, b"x") == FileSystemResult::Failure(FileSystemError::FileTooBig));
    sys.close(fd).unwrap();
    assert_eq!(read_all(&mut sys, "a"), pattern(max));
}

#[test]
fn too_big_write_is_atomic() {
    let mut sys = fresh();
    let fd = sys.open_create("a").unwrap();
    sys.write(fd, &pattern(10)).unwrap();
    assert!(sys.write(fd, &pattern(503)) == FileSystemResult::Failure(FileSystemError::FileTooBig));
    sys.close(fd).unwrap();
    assert_eq!(read_all(&mut sys, "a"), pattern(10));
}

#[test]
fn exclusive_open_and_reopen() {
    let mut sys = fresh();
    let fd = sys.open_create("a").unwrap();
    assert!(sys.open_read("a") == FileSystemResult::Failure(FileSystemError::AlreadyOpen));
    assert!(sys.open_append("a") == FileSystemResult::Failure(FileSystemError::AlreadyOpen));
    assert!(sys.open_create("a") == FileSystemResult::Failure(FileSystemError::AlreadyOpen));
    sys.close(fd).unwrap();
    let fd = sys.open_read("a").unwrap();
    sys.close(fd).unwrap();
}

#[test]
fn close_twice_fails() {
    let mut sys = fresh();
    let fd = sys.open_create("a").unwrap();
    sys.close(fd).unwrap();
    assert!(sys.close(fd) == FileSystemResult::Failure(FileSystemError::FileNotOpen));
    assert!(sys.close(99) == FileSystemResult::Failure(FileSystemError::FileNotOpen));
}

#[test]
fn out_of_range_descriptors() {
    let mut sys = fresh();
    let mut buffer = [0u8; 4];
    assert!(sys.read(16, &mut buffer) == FileSystemResult::Failure(FileSystemError::FileNotOpen));
    assert!(sys.write(16, b"x") == FileSystemResult::Failure(FileSystemError::FileNotOpen));
}

#[test]
fn too_many_open() {
    let mut sys = fresh();
    for i in 0..16 {
        let name = format!("f{i}");
        sys.open_create(name.as_str()).unwrap();
    }
    assert!(sys.open_create("extra") == FileSystemResult::Failure(FileSystemError::TooManyOpen));
    assert!(sys.inode_for("extra") == FileSystemResult::Failure(FileSystemError::FileNotFound));
}

#[test]
fn long_name_leaves_directory_alone() {
    let mut sys = fresh();
    assert!(sys.open_create("ninebytes") == FileSystemResult::Failure(FileSystemError::FilenameTooLong));
    assert!(!sys.directory_exists());
    assert!(sys.inode_for("ninebytes") == FileSystemResult::Failure(FileSystemError::FileNotFound));
    let fd = sys.open_create("eightbyt").unwrap();
    sys.close(fd).unwrap();
    assert!(sys.directory_exists());
    assert!(sys.inode_for("eightbyt") == FileSystemResult::Success(1));
}

#[test]
fn inodes_are_first_fit() {
    let mut sys = fresh();
    for name in ["a", "b", "c"] {
        let fd = sys.open_create(name).unwrap();
        sys.close(fd).unwrap();
    }
    assert!(sys.inode_for("a") == FileSystemResult::Success(1));
    assert!(sys.inode_for("b") == FileSystemResult::Success(2));
    assert!(sys.inode_for("c") == FileSystemResult::Success(3));
}

#[test]
fn disk_full_keeps_earlier_content() {
    let mut sys = fresh();
    let mut last = 0;
    for i in 0..30 {
        let name = format!("f{i}");
        let fd = sys.open_create(name.as_str()).unwrap();
        sys.write(fd, &pattern(512)).unwrap();
        sys.close(fd).unwrap();
        last = i;
    }
    let fd = sys.open_create("g").unwrap();
    sys.write(fd, &pattern(192)).unwrap();
    assert!(sys.write(fd, b"z") == FileSystemResult::Failure(FileSystemError::DiskFull));
    sys.close(fd).unwrap();
    assert_eq!(read_all(&mut sys, "g"), pattern(192));
    let name = format!("f{last}");
    assert_eq!(read_all(&mut sys, name.as_str()), pattern(512));
}

#[test]
fn short_reads_and_position() {
    let mut sys = fresh();
    let fd = sys.open_create("a").unwrap();
    sys.write(fd, b"abcdefghij").unwrap();
    sys.close(fd).unwrap();
    let fd = sys.open_read("a").unwrap();
    let mut buffer = [0u8; 4];
    assert!(sys.read(fd, &mut buffer) == FileSystemResult::Success(4));
    assert_eq!(&buffer, b"abcd");
    assert!(sys.read(fd, &mut buffer) == FileSystemResult::Success(4));
    assert_eq!(&buffer, b"efgh");
    assert!(sys.read(fd, &mut buffer) == FileSystemResult::Success(2));
    assert_eq!(&buffer, b"ijgh");
    assert!(sys.read(fd, &mut buffer) == FileSystemResult::Success(0));
}

#[test]
fn geometry_values() {
    let sys = fresh();
    assert_eq!(sys.max_file_size(), 512);
    assert_eq!(sys.num_inode_bytes(), 10);
    assert_eq!(sys.inodes_per_block(), 6);
    assert_eq!(sys.num_inode_blocks(), 5);
    assert_eq!(sys.num_data_blocks(), 248);
    assert_eq!(sys.num_inode_entries(), 300);
    assert_eq!(sys.first_data_block(), 7);
}

#[test]
fn unwrap_gives_value() {
    let r: FileSystemResult<usize> = FileSystemResult::Success(5);
    assert_eq!(r.unwrap(), 5);
}

#[test]
fn ramdisk_reads_what_was_written() {
    let mut disk: RamDisk<64, 255> = RamDisk::new();
    let mut block = vec![0u8; 64];
    disk.read(3, &mut block);
    assert_eq!(block, vec![0u8; 64]);
    let data: Vec<u8> = (0..64).map(|i| i as u8).collect();
    disk.write(3, &data);
    disk.read(3, &mut block);
    assert_eq!(block, data);
    disk.read(4, &mut block);
    assert_eq!(block, vec![0u8; 64]);
}

#[test]
fn metadata_layout_on_disk() {
    let mut sys = fresh();
    let mut block = vec![0u8; 64];
    // A fresh system: only the directory's inode is taken, and the five
    // directory blocks lead the data bitmap.
    sys.disk().read(0, &mut block);
    assert_eq!(block[0], 0b1);
    sys.disk().read(1, &mut block);
    assert_eq!(block[0], 0b1_1111);
    assert_eq!(block[1], 0);
    let fd = sys.open_create("ab").unwrap();
    sys.write(fd, b"xyz").unwrap();
    sys.close(fd).unwrap();
    sys.disk().read(0, &mut block);
    assert_eq!(block[0], 0b11);
    sys.disk().read(1, &mut block);
    assert_eq!(block[0], 0b11_1111);
    // Inode 1's record: length 3, low byte first, then block 12 and unused slots.
    sys.disk().read(2, &mut block);
    assert_eq!(&block[10..20], &[3, 0, 12, 0, 0, 0, 0, 0, 0, 0]);
    // Directory entry 1: the name padded to eight bytes, then inode number 1.
    sys.disk().read(7, &mut block);
    assert_eq!(&block[10..20], &[b'a', b'b', 0, 0, 0, 0, 0, 0, 1, 0]);
    // The file's data block.
    sys.disk().read(12, &mut block);
    assert_eq!(&block[0..3], b"xyz");
}
