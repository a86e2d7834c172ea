//! Round trips through the byte codecs on concrete values.

use stuckliste::blocks::Blocks;
use stuckliste::bom::Bom;
use stuckliste::io::ByteWriter;
use stuckliste::named_blocks::NamedBlocks;
use stuckliste::receipt::bom_info::BomInfo;
use stuckliste::receipt::file_sizes::FileSizes64;
use stuckliste::receipt::metadata::{Common, Directory, File, Link, Metadata};
use stuckliste::receipt::metadata::read_metadata;
use stuckliste::receipt::ptr::{read_ptr_block, write_ptr_block, Ptr};

#[test]
fn write_read() {
    // the block store round-trips through its table encoding
    let mut blocks = Blocks::new();
    let i1 = blocks.append(512, 600).unwrap();
    let i2 = blocks.append(600, 600).unwrap();
    let i3 = blocks.append(600, 1024).unwrap();
    assert_eq!((i1, i2, i3), (1, 2, 3));
    // a zero-length block at a nonzero offset still counts as occupied
    assert_eq!(blocks.num_non_null_blocks(), 3);
    let mut w = ByteWriter::new();
    blocks.write_be(&mut w);
    let bytes = w.into_vec();
    let read = Blocks::read_be(&bytes).unwrap();
    assert_eq!(read.len(), blocks.len());
    for i in 0..blocks.len() {
        let a = blocks.block(i as u32);
        let b = read.block(i as u32);
        assert_eq!((a.offset, a.len), (b.offset, b.len));
    }
    assert_eq!(read.num_non_null_blocks(), 3);
}

#[test]
fn named_blocks_write_read() {
    let mut nb = NamedBlocks::new();
    nb.insert(b"Paths".to_vec(), 7);
    nb.insert(b"Size64".to_vec(), 9);
    let mut w = ByteWriter::new();
    nb.write_be(&mut w).unwrap();
    let bytes = w.into_vec();
    let read = NamedBlocks::read_be(&bytes).unwrap();
    assert_eq!(read.len(), 2);
    assert_eq!(read.get(b"Paths"), Some(7));
    assert_eq!(read.get(b"Size64"), Some(9));
    assert_eq!(read.get(b"HLIndex"), None);
}

#[test]
fn bom_write_read() {
    let mut blocks = Blocks::new();
    blocks.append(512, 520).unwrap();
    let mut named = NamedBlocks::new();
    named.insert(b"BomInfo".to_vec(), 1);
    let bom = Bom::from_parts(blocks, named);
    let mut w = ByteWriter::new();
    w.seek(512);
    bom.write(&mut w).unwrap();
    let bytes = w.into_vec();
    let read = Bom::read(&bytes).unwrap();
    assert_eq!(read.get_named(b"BomInfo"), Some(1));
    assert_eq!(read.blocks().len(), 2);
    let b = read.blocks().block(1);
    assert_eq!((b.offset, b.len), (512, 8));
}

#[test]
fn file_write_read() {
    // an empty container still round-trips its header and tables
    let bom = Bom::new();
    let mut w = ByteWriter::new();
    bom.write(&mut w).unwrap();
    let bytes = w.into_vec();
    assert!(bytes.len() >= 512);
    assert_eq!(&bytes[0..8], b"BOMStore");
    let read = Bom::read(&bytes).unwrap();
    assert_eq!(read.blocks().len(), 1);
    assert_eq!(read.named_blocks().len(), 0);
    assert_eq!(read.blocks().num_non_null_blocks(), 0);
}

#[test]
fn bom_info_write_read_symmetry() {
    let mut info = BomInfo::new_empty();
    info.accumulate(0, 100);
    info.accumulate(7, 200);
    info.accumulate(0, 50);
    assert_eq!(info.num_paths(), 3);
    assert_eq!(info.entries().len(), 2);
    assert_eq!(info.entries()[0].cpu_type, 0);
    assert_eq!(info.entries()[0].file_size, 150);
    assert_eq!(info.entries()[1].cpu_type, 7);
    assert_eq!(info.entries()[1].file_size, 200);
    let mut w = ByteWriter::new();
    info.write_be(&mut w);
    let bytes = w.into_vec();
    let read = BomInfo::read_be(&bytes).unwrap();
    assert_eq!(read.num_paths(), 3);
    assert_eq!(read.entries().len(), 2);
    assert_eq!(read.entries()[0].cpu_type, 0);
    assert_eq!(read.entries()[0].file_size, 150);
    assert_eq!(read.entries()[1].cpu_type, 7);
    assert_eq!(read.entries()[1].file_size, 200);
}

#[test]
fn file_sizes_write_read_symmetry() {
    let mut fs = FileSizes64::new();
    fs.insert(5, 4_294_967_296);
    fs.insert(9, 8_000_000_000);
    let mut w = ByteWriter::new();
    let mut blocks = Blocks::new();
    let i = fs.write_block(&mut w, &mut blocks).unwrap();
    let bytes = w.into_vec();
    let read = FileSizes64::read_block(i, &bytes, &blocks).unwrap();
    assert_eq!(read.len(), 2);
    assert_eq!(read.get(5), Some(4_294_967_296));
    assert_eq!(read.get(9), Some(8_000_000_000));
    assert_eq!(read.get(6), None);
}

#[test]
fn metadata_write_read_symmetry() {
    let common = Common { mode: 0o100644, uid: 501, gid: 20, mtime: 1_600_000_000, size: 5 };
    let m = Metadata::File(File { common, checksum: 0xdeadbeef });
    let mut w = ByteWriter::new();
    m.write_be(&mut w);
    let bytes = w.into_vec();
    let read = read_metadata(&bytes).unwrap();
    assert_eq!(read.mode(), 0o100644);
    assert_eq!(read.uid(), 501);
    assert_eq!(read.gid(), 20);
    assert_eq!(read.mtime(), 1_600_000_000);
    assert_eq!(read.size(), 5);
    assert_eq!(read.checksum(), 0xdeadbeef);

    let common = Common { mode: 0o040755, uid: 0, gid: 0, mtime: 7, size: 0 };
    let m = Metadata::Directory(Directory { common });
    let mut w = ByteWriter::new();
    m.write_be(&mut w);
    let bytes = w.into_vec();
    let read = read_metadata(&bytes).unwrap();
    assert_eq!(read.mode(), 0o040755);
    assert_eq!(read.mtime(), 7);
    assert_eq!(read.checksum(), 0);

    let common = Common { mode: 0o120777, uid: 1, gid: 2, mtime: 3, size: 11 };
    let m = Metadata::Link(Link { common, checksum: 42, target: b"target/name".to_vec() });
    let mut w = ByteWriter::new();
    m.write_be(&mut w);
    let bytes = w.into_vec();
    let read = read_metadata(&bytes).unwrap();
    assert_eq!(read.checksum(), 42);
    match read {
        Metadata::Link(l) => assert_eq!(l.target(), &b"target/name".to_vec()),
        _ => panic!("expected a link"),
    }
}

#[test]
fn ptr_write_read_symmetry() {
    let p = Ptr::new(17u32);
    assert_eq!(p.into_inner(), 17);
    let mut w = ByteWriter::new();
    let mut blocks = Blocks::new();
    let i = write_ptr_block(12345, &mut w, &mut blocks).unwrap();
    let bytes = w.into_vec();
    let target = read_ptr_block(i, &bytes, &blocks).unwrap();
    assert_eq!(target, 12345);
}
