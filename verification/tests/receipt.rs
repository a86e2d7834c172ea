//! End-to-end receipt scenarios.

use stuckliste::blocks::Blocks;
use stuckliste::bom::Bom;
use stuckliste::io::ByteWriter;
use stuckliste::receipt::bom::Receipt;
use stuckliste::receipt::context::Context;
use stuckliste::receipt::bom::ReceiptBuilder;
use stuckliste::receipt::crc::file_checksum;
use stuckliste::receipt::file_sizes::FileSizes64;
use stuckliste::receipt::file_type::EntryType;
use stuckliste::receipt::hard_links::HardLinks;
use stuckliste::receipt::metadata::{Common, Directory, Entry, File, Link, Metadata};
use stuckliste::receipt::path_component::{PathComponent, PathComponentVec};

fn dir_component(seq_no: u32, parent: u32, name: &[u8]) -> PathComponent {
    let common = Common { mode: 0o040755, uid: 0, gid: 0, mtime: 0, size: 0 };
    PathComponent {
        seq_no,
        parent,
        metadata: Metadata::Directory(Directory { common }),
        name: name.to_vec(),
    }
}

fn write_receipt(receipt: &Receipt) -> Vec<u8> {
    let mut w = ByteWriter::new();
    receipt.write(&mut w).unwrap();
    w.into_vec()
}

#[test]
fn empty_receipt() {
    let receipt = ReceiptBuilder::new().build(PathComponentVec::new(Vec::new()));
    let bytes = write_receipt(&receipt);
    let read = Receipt::read(&bytes).unwrap();
    assert!(read.entries().unwrap().is_empty());
    assert_eq!(read.stats().unwrap().num_paths(), 0);
    // re-reading the written bytes still yields the empty receipt
    let again = Receipt::read(&bytes).unwrap();
    assert!(again.entries().unwrap().is_empty());
}

#[test]
fn single_regular_file() {
    let checksum = file_checksum(b"hello");
    assert_eq!(checksum, 0x3610a686);
    let common = Common { mode: 0o100644, uid: 501, gid: 20, mtime: 1_600_000_000, size: 5 };
    let file = PathComponent {
        seq_no: 2,
        parent: 1,
        metadata: Metadata::File(File { common, checksum }),
        name: b"a.txt".to_vec(),
    };
    let comps = vec![dir_component(1, 0, b"."), file];
    let receipt = Receipt::new(PathComponentVec::new(comps));
    let bytes = write_receipt(&receipt);
    let read = Receipt::read(&bytes).unwrap();
    let entries = read.entries().unwrap();
    assert_eq!(entries.len(), 2);
    assert_eq!(entries[0].0, b".".to_vec());
    assert_eq!(entries[1].0, b"./a.txt".to_vec());
    assert_eq!(entries[1].1.size(), 5);
    assert_eq!(entries[1].1.checksum(), 0x3610a686);
}

#[test]
fn symlink_target() {
    let target = b"target/name".to_vec();
    let checksum = file_checksum(&target);
    let common = Common { mode: 0o120777, uid: 0, gid: 0, mtime: 9, size: 11 };
    let link = PathComponent {
        seq_no: 2,
        parent: 1,
        metadata: Metadata::Link(Link { common, checksum, target: target.clone() }),
        name: b"link".to_vec(),
    };
    let comps = vec![dir_component(1, 0, b"."), link];
    let receipt = Receipt::new(PathComponentVec::new(comps));
    let bytes = write_receipt(&receipt);
    let read = Receipt::read(&bytes).unwrap();
    let entries = read.entries().unwrap();
    assert_eq!(entries.len(), 2);
    match &entries[1].1 {
        Metadata::Link(l) => {
            assert_eq!(l.target(), &target);
            assert_eq!(l.checksum(), checksum);
        },
        other => panic!("expected a link, got {:?}", other),
    }
    assert_eq!(entries[1].1.size(), 11);
}

#[test]
fn large_file_escape() {
    let size: u64 = 4_294_967_296;
    let common = Common { mode: 0o100644, uid: 0, gid: 0, mtime: 0, size };
    let file = PathComponent {
        seq_no: 2,
        parent: 1,
        metadata: Metadata::File(File { common, checksum: 1 }),
        name: b"big".to_vec(),
    };
    let comps = vec![dir_component(1, 0, b"."), file];
    let receipt = Receipt::new(PathComponentVec::new(comps));
    let bytes = write_receipt(&receipt);

    // the written store carries a size table with exactly one entry
    let bom = Bom::read(&bytes).unwrap();
    let size64 = bom.get_named(b"Size64").unwrap();
    let (blocks, _named) = bom.into_parts();
    let table = FileSizes64::read_block(size64, &bytes, &blocks).unwrap();
    let pairs = table.into_inner();
    assert_eq!(pairs.len(), 1);
    assert_eq!(pairs[0].1, size);

    // and the reader restores the 64-bit size through it
    let read = Receipt::read(&bytes).unwrap();
    let entries = read.entries().unwrap();
    assert_eq!(entries[1].1.size(), 4_294_967_296);
}

#[test]
fn hard_link_pair() {
    // two names recorded against one metadata block: the outer entry
    // keeps the primary block index, the inner subtree the other name
    let mut links = HardLinks::new();
    links.add(7, b"./a".to_vec());
    links.add(7, b"./b".to_vec());
    assert_eq!(links.len(), 1);
    let mut w = ByteWriter::new();
    let mut blocks = Blocks::new();
    let i = links.write_block(&mut w, &mut blocks).unwrap();
    let bytes = w.into_vec();
    let read = HardLinks::read_block(i, &bytes, &blocks).unwrap();
    let entries = read.into_inner();
    assert_eq!(entries.len(), 1);
    assert_eq!(entries[0].0, 7);
    assert_eq!(entries[0].1, vec![b"./a".to_vec(), b"./b".to_vec()]);
}

#[test]
fn hard_links_write_read_symmetry() {
    let mut links = HardLinks::new();
    links.add(3, b"./x".to_vec());
    links.add(9, b"./y".to_vec());
    links.add(9, b"./z".to_vec());
    let mut w = ByteWriter::new();
    let mut blocks = Blocks::new();
    let i = links.write_block(&mut w, &mut blocks).unwrap();
    let bytes = w.into_vec();
    let read = HardLinks::read_block(i, &bytes, &blocks).unwrap();
    let mut entries = read.into_inner();
    entries.sort_by_key(|e| e.0);
    assert_eq!(entries.len(), 2);
    assert_eq!(entries[0].0, 3);
    assert_eq!(entries[0].1, vec![b"./x".to_vec()]);
    assert_eq!(entries[1].0, 9);
    assert_eq!(entries[1].1, vec![b"./y".to_vec(), b"./z".to_vec()]);
}

#[test]
fn path_component_write_read_symmetry() {
    let common = Common { mode: 0o100644, uid: 3, gid: 4, mtime: 5, size: 6 };
    let comps = vec![
        dir_component(1, 0, b"."),
        PathComponent {
            seq_no: 2,
            parent: 1,
            metadata: Metadata::File(File { common, checksum: 77 }),
            name: b"f".to_vec(),
        },
    ];
    let v = PathComponentVec::new(comps);
    let mut w = ByteWriter::new();
    let mut blocks = Blocks::new();
    let mut ctx = Context::new();
    let i = v.write_block(&mut w, &mut blocks, &mut ctx).unwrap();
    // the context recorded each component's name against its key block
    assert_eq!(ctx.hard_links.len(), 2);
    let bytes = w.into_vec();
    let ctx2 = Context::new();
    let read = PathComponentVec::read_block(i, &bytes, &blocks, &ctx2).unwrap();
    assert_eq!(read.len(), 2);
    assert_eq!(read.component(0).seq_no, 1);
    assert_eq!(read.component(0).name, b".".to_vec());
    assert_eq!(read.component(1).seq_no, 2);
    assert_eq!(read.component(1).parent, 1);
    assert_eq!(read.component(1).name, b"f".to_vec());
    assert_eq!(read.component(1).metadata.checksum(), 77);
    assert_eq!(read.component(1).metadata.uid(), 3);
}

#[test]
fn paths_only_mode() {
    let builder = ReceiptBuilder::new().paths_only(true);
    assert!(builder.is_paths_only());
    let comps = vec![
        PathComponent {
            seq_no: 1,
            parent: 0,
            metadata: Metadata::Entry(Entry { entry_type: EntryType::Directory }),
            name: b".".to_vec(),
        },
        PathComponent {
            seq_no: 2,
            parent: 1,
            metadata: Metadata::Entry(Entry { entry_type: EntryType::File }),
            name: b"a.txt".to_vec(),
        },
    ];
    let receipt = builder.build(PathComponentVec::new(comps));
    let bytes = write_receipt(&receipt);
    let read = Receipt::read(&bytes).unwrap();
    let entries = read.entries().unwrap();
    assert_eq!(entries.len(), 2);
    for (_, m) in entries.iter() {
        assert_eq!(m.flags() & 0x000f, 0);
        assert_eq!(m.mode(), 0);
        assert_eq!(m.uid(), 0);
        assert_eq!(m.gid(), 0);
        assert_eq!(m.mtime(), 0);
        assert_eq!(m.size(), 0);
        assert_eq!(m.checksum(), 0);
    }
    assert_eq!(entries[0].1.entry_type(), EntryType::Directory);
    assert_eq!(entries[1].1.entry_type(), EntryType::File);
}

#[test]
fn receipt_write_read() {
    // a mixed receipt round-trips every public metadata field
    let comps = vec![
        dir_component(1, 0, b"."),
        PathComponent {
            seq_no: 2,
            parent: 1,
            metadata: Metadata::File(File {
                common: Common { mode: 0o100600, uid: 7, gid: 8, mtime: 9, size: 3 },
                checksum: 0xabcd,
            }),
            name: b"f".to_vec(),
        },
        dir_component(3, 1, b"sub"),
        PathComponent {
            seq_no: 4,
            parent: 3,
            metadata: Metadata::File(File {
                common: Common { mode: 0o100644, uid: 1, gid: 1, mtime: 2, size: 4 },
                checksum: 0x1234,
            }),
            name: b"g".to_vec(),
        },
    ];
    let receipt = Receipt::new(PathComponentVec::new(comps));
    let stats = receipt.stats().unwrap();
    let bytes = write_receipt(&receipt);
    let read = Receipt::read(&bytes).unwrap();
    let entries = read.entries().unwrap();
    assert_eq!(entries.len(), 4);
    assert_eq!(entries[3].0, b"./sub/g".to_vec());
    assert_eq!(entries[3].1.uid(), 1);
    assert_eq!(entries[1].1.checksum(), 0xabcd);
    let stats2 = read.stats().unwrap();
    assert_eq!(stats.num_paths(), stats2.num_paths());
    assert_eq!(stats.entries().len(), stats2.entries().len());
}
