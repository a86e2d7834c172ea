//! Error cases, device numbers, flags and classification.

use stuckliste::blocks::Block;
use stuckliste::error::Error;
use stuckliste::io::ByteWriter;
use stuckliste::named_blocks::NamedBlocks;
use stuckliste::receipt::bom::Receipt;
use stuckliste::receipt::dev::{bom_dev_to_libc_dev, libc_dev_to_bom_dev};
use stuckliste::receipt::crc::file_checksum;
use stuckliste::receipt::fat::{classify_file, FatBinary};
use stuckliste::receipt::metadata::{
    BinaryType, Common, Device, Entry, Metadata, read_metadata,
};
use stuckliste::receipt::file_type::{EntryType, FileType};
use stuckliste::receipt::path_component::{PathComponent, PathComponentVec};

#[test]
fn header_errors() {
    assert!(matches!(Receipt::read(&[0u8; 100]), Err(Error::Truncated)));
    let mut junk = vec![0u8; 600];
    junk[0] = b'X';
    assert!(matches!(Receipt::read(&junk), Err(Error::NotABomStore)));
    let mut wrong_version = vec![0u8; 600];
    wrong_version[..8].copy_from_slice(b"BOMStore");
    wrong_version[11] = 2;
    assert!(matches!(Receipt::read(&wrong_version), Err(Error::UnsupportedVersion)));
}

#[test]
fn block_too_large() {
    let r = Block::from_write(0, (u32::MAX as usize) + 1);
    assert!(matches!(r, Err(Error::FileTooLarge)));
}

#[test]
fn long_name_is_refused() {
    let mut nb = NamedBlocks::new();
    nb.insert(vec![65u8; 300], 1);
    let mut w = ByteWriter::new();
    assert!(matches!(nb.write_be(&mut w), Err(Error::InvalidData)));
}

#[test]
fn path_loop_is_detected() {
    // two components whose parent links form a cycle
    let common = Common { mode: 0o040755, uid: 0, gid: 0, mtime: 0, size: 0 };
    let comps = vec![
        PathComponent {
            seq_no: 1,
            parent: 2,
            metadata: Metadata::Directory(stuckliste::receipt::metadata::Directory { common }),
            name: b"a".to_vec(),
        },
        PathComponent {
            seq_no: 2,
            parent: 1,
            metadata: Metadata::Directory(stuckliste::receipt::metadata::Directory { common }),
            name: b"b".to_vec(),
        },
    ];
    let v = PathComponentVec::new(comps);
    assert!(matches!(v.to_paths(), Err(Error::PathLoop)));
}

#[test]
fn parents_resolve_in_walk_order() {
    // in a vector a walk produced, every nonzero parent is some other
    // component's sequence number
    let common = Common { mode: 0o040755, uid: 0, gid: 0, mtime: 0, size: 0 };
    let comps = vec![
        PathComponent {
            seq_no: 1,
            parent: 0,
            metadata: Metadata::Directory(stuckliste::receipt::metadata::Directory { common }),
            name: b".".to_vec(),
        },
        PathComponent {
            seq_no: 2,
            parent: 1,
            metadata: Metadata::Directory(stuckliste::receipt::metadata::Directory { common }),
            name: b"sub".to_vec(),
        },
        PathComponent {
            seq_no: 3,
            parent: 2,
            metadata: Metadata::Directory(stuckliste::receipt::metadata::Directory { common }),
            name: b"deep".to_vec(),
        },
    ];
    let v = PathComponentVec::new(comps);
    for i in 0..v.len() {
        let parent = v.component(i).parent;
        if parent != 0 {
            let found = (0..v.len()).any(|j| j != i && v.component(j).seq_no == parent);
            assert!(found);
        }
    }
    let paths = v.to_paths().unwrap();
    assert_eq!(paths[2].0, b"./sub/deep".to_vec());
}

#[test]
fn device_numbers_round_trip() {
    // a character device 8:1, as the C library encodes it
    let libc_dev: u64 = (8u64 << 8) | 1;
    let bom = libc_dev_to_bom_dev(libc_dev);
    assert_eq!(bom, (8u32 << 24) | 1);
    assert_eq!(bom_dev_to_libc_dev(bom), libc_dev);
    // every stored number comes back unchanged too
    for y in [0u32, 1, 0x0100_0018, 0xff00_0000, 0xffff_ffff] {
        assert_eq!(libc_dev_to_bom_dev(bom_dev_to_libc_dev(y)), y);
    }
}

#[test]
fn device_record_round_trip() {
    let common = Common { mode: 0o020600, uid: 0, gid: 0, mtime: 0, size: 0 };
    let m = Metadata::Device(Device { common, dev: (8 << 24) | 1 });
    let mut w = ByteWriter::new();
    m.write_be(&mut w);
    let bytes = w.into_vec();
    let read = read_metadata(&bytes).unwrap();
    match read {
        Metadata::Device(d) => assert_eq!(d.rdev(), (8 << 24) | 1),
        other => panic!("expected a device, got {:?}", other),
    }
}

#[test]
fn flags_axes() {
    let m = Metadata::Entry(Entry { entry_type: EntryType::Link });
    assert_eq!(m.flags(), 0);
    let common = Common { mode: 0o100755, uid: 0, gid: 0, mtime: 0, size: 1 };
    let file = Metadata::File(stuckliste::receipt::metadata::File { common, checksum: 0 });
    assert_eq!(file.flags(), 0x000f);
    assert_eq!(file.binary_type(), None);
    assert_eq!(FileType::new(0o100755).unwrap(), FileType::Regular);
    assert_eq!(FileType::new(0o100755).unwrap().to_entry_type(), EntryType::File);
    assert!(FileType::new(0).is_err());
}

#[test]
fn fat_binary_two_slices() {
    // a 32-bit fat header with two architecture records; each record
    // closes with its alignment word
    let mut data = Vec::new();
    data.extend_from_slice(&0xcafebabe_u32.to_be_bytes());
    data.extend_from_slice(&2u32.to_be_bytes());
    // cpu 7, subtype 3, offset 48, size 3, align 2
    data.extend_from_slice(&7u32.to_be_bytes());
    data.extend_from_slice(&3u32.to_be_bytes());
    data.extend_from_slice(&48u32.to_be_bytes());
    data.extend_from_slice(&3u32.to_be_bytes());
    data.extend_from_slice(&2u32.to_be_bytes());
    // cpu 18, subtype 9, offset 51, size 4, align 2
    data.extend_from_slice(&18u32.to_be_bytes());
    data.extend_from_slice(&9u32.to_be_bytes());
    data.extend_from_slice(&51u32.to_be_bytes());
    data.extend_from_slice(&4u32.to_be_bytes());
    data.extend_from_slice(&2u32.to_be_bytes());
    assert_eq!(data.len(), 48);
    data.extend_from_slice(b"abcWXYZ");

    let fat = FatBinary::read_be(&data).unwrap();
    assert_eq!(fat.arches().len(), 2);
    assert_eq!(fat.arches()[0].cpu_type, 7);
    assert_eq!(fat.arches()[0].cpu_sub_type, 3);
    assert_eq!(fat.arches()[0].offset, 48);
    assert_eq!(fat.arches()[0].size, 3);
    assert_eq!(fat.arches()[1].cpu_type, 18);
    assert_eq!(fat.arches()[1].cpu_sub_type, 9);
    assert_eq!(fat.arches()[1].offset, 51);
    assert_eq!(fat.arches()[1].size, 4);

    let common = Common { mode: 0o100755, uid: 0, gid: 0, mtime: 0, size: 55 };
    let m = classify_file(common, 77, &data);
    match m {
        Metadata::Executable(x) => {
            assert!(x.is_fat());
            assert_eq!(x.arches().len(), 2);
            assert_eq!(x.arches()[0].cpu_type(), 7);
            assert_eq!(x.arches()[0].size(), 3);
            assert_eq!(x.arches()[0].checksum(), file_checksum(b"abc"));
            assert_eq!(x.arches()[1].cpu_type(), 18);
            assert_eq!(x.arches()[1].size(), 4);
            assert_eq!(x.arches()[1].checksum(), file_checksum(b"WXYZ"));
        },
        other => panic!("expected an executable, got {:?}", other),
    }
}

#[test]
fn classification() {
    let common = Common { mode: 0o100755, uid: 0, gid: 0, mtime: 0, size: 12 };
    // a Mach object header: magic, CPU type, CPU subtype
    let mut mach = Vec::new();
    mach.extend_from_slice(&0xfeedfacf_u32.to_be_bytes());
    mach.extend_from_slice(&12u32.to_be_bytes());
    mach.extend_from_slice(&0u32.to_be_bytes());
    let m = classify_file(common, 5, &mach);
    match m {
        Metadata::Executable(x) => {
            assert!(!x.is_fat());
            assert_eq!(x.kind(), BinaryType::Mach);
            assert_eq!(x.arches().len(), 1);
            assert_eq!(x.arches()[0].cpu_type(), 12);
            assert_eq!(x.arches()[0].size(), 12);
            assert_eq!(x.arches()[0].checksum(), 5);
        },
        other => panic!("expected an executable, got {:?}", other),
    }
    // plain contents stay a plain file
    let m = classify_file(common, 5, b"hello world!");
    match m {
        Metadata::File(f) => assert_eq!(f.checksum(), 5),
        other => panic!("expected a file, got {:?}", other),
    }
}
