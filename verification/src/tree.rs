//! The paged tree: data nodes holding `(key, value)` block pairs, meta
//! nodes holding `(child, last value)` pairs, and a descriptor block.

use vstd::prelude::*;

verus! {

use crate::blocks::Block;
use crate::blocks::Blocks;
use crate::error::Error;
use crate::io::ByteWriter;
use crate::io::enc_list;
use crate::io::enc_u16;
use crate::io::enc_u32;
use crate::io::enc_u8;
use crate::io::lemma_enc_list_snoc;
use crate::io::read_u16;
use crate::io::read_u32;
use crate::io::read_u8;
use crate::io::read_exact;
use crate::io::zeros;
use crate::named_blocks::dec_u32;
use crate::named_blocks::lemma_dec_enc_u32;

/// Node header: `is_data u16 · count u16 · next u32 · prev u32`.
pub const NODE_HEADER_LEN: usize = 12;

/// Each entry: two block indices.
pub const ENTRY_LEN: usize = 8;

/// The smallest node that can hold one entry.
pub const MIN_BLOCK_LEN: usize = 20;

pub const MAX_BLOCK_LEN: usize = 65536;

/// The ASCII bytes `tree`.
pub open spec fn tree_magic() -> Seq<u8> {
    seq![116u8, 114u8, 101u8, 101u8]
}

/// The big-endian value of two bytes.
pub open spec fn dec_u16(s: Seq<u8>) -> u16 {
    (((s[0] as u16) << 8) | (s[1] as u16)) as u16
}

/// Decoding inverts encoding for `u16`.
pub proof fn lemma_dec_enc_u16(v: u16)
    ensures
        dec_u16(enc_u16(v)) == v,
{
    let b0 = ((v >> 8) & 0xff) as u8;
    let b1 = (v & 0xff) as u8;
    assert((((b0 as u16) << 8) | (b1 as u16)) as u16 == v) by (bit_vector)
        requires
            b0 == ((v >> 8) & 0xff) as u8,
            b1 == (v & 0xff) as u8;
}

/// One tree entry on disk: two big-endian block indices.
pub open spec fn enc_entry(e: (u32, u32)) -> Seq<u8> {
    enc_u32(e.0) + enc_u32(e.1)
}

/// How many entries fit in one node of `block_len` bytes.
pub open spec fn spec_max_entries(block_len: int) -> int {
    (block_len - 12) / 8
}

pub fn max_entries_per_block(block_len: usize) -> (r: usize)
    requires
        block_len >= MIN_BLOCK_LEN,
    ensures
        r == spec_max_entries(block_len as int),
        r >= 1,
{
    (block_len - NODE_HEADER_LEN) / ENTRY_LEN
}

/// The encoding of an entry list is eight bytes per entry.
pub proof fn lemma_enc_entry_list_len(s: Seq<(u32, u32)>)
    ensures
        enc_list(s, |e: (u32, u32)| enc_entry(e)).len() == 8 * s.len(),
    decreases s.len(),
{
    if s.len() > 0 {
        lemma_enc_entry_list_len(s.drop_first());
    }
}

/// A node's bytes before padding.
pub open spec fn node_payload(is_data: bool, next: u32, prev: u32, entries: Seq<(u32, u32)>) -> Seq<
    u8,
> {
    enc_u16(if is_data {
        1u16
    } else {
        0u16
    }) + enc_u16(entries.len() as u16) + enc_u32(next) + enc_u32(prev) + enc_list(
        entries,
        |e: (u32, u32)| enc_entry(e),
    )
}

/// A node's bytes, zero-padded to exactly `block_len`.
pub open spec fn enc_node(
    is_data: bool,
    next: u32,
    prev: u32,
    entries: Seq<(u32, u32)>,
    block_len: int,
) -> Seq<u8> {
    let p = node_payload(is_data, next, prev, entries);
    p + zeros((block_len - p.len()) as nat)
}

/// The tree descriptor block:
/// `'tree' · version u32 · root u32 · block_len u32 · entries u32 · 0 u8`.
pub open spec fn enc_tree_desc(root: u32, block_len: u32, num_entries: u32) -> Seq<u8> {
    tree_magic() + enc_u32(1) + enc_u32(root) + enc_u32(block_len) + enc_u32(num_entries) + enc_u8(
        0,
    )
}

/// An in-memory tree node: a leaf holds `(key, value)` block pairs, a
/// meta node holds `(child, last value)` pairs.
#[derive(Debug)]
pub struct TreeNode {
    pub is_data: bool,
    pub next: u32,
    pub prev: u32,
    pub entries: Vec<(u32, u32)>,
}

impl TreeNode {
    /// An empty leaf with no siblings.
    pub fn new_leaf() -> (r: Self)
        ensures
            r.is_data,
            r.next == 0,
            r.prev == 0,
            r.entries@ == Seq::<(u32, u32)>::empty(),
    {
        TreeNode { is_data: true, next: 0, prev: 0, entries: Vec::new() }
    }

    pub fn is_leaf(&self) -> (r: bool)
        ensures
            r == self.is_data,
    {
        self.is_data
    }

    pub fn num_entries(&self) -> (r: usize)
        ensures
            r == self.entries@.len(),
    {
        self.entries.len()
    }

    pub fn into_entries(self) -> (r: Vec<(u32, u32)>)
        ensures
            r@ == self.entries@,
    {
        self.entries
    }
}

/// Split `entries` into chunks of at most `n`, all but the last full.
///
/// The concatenation of the chunks is exactly the input: the split policy
/// loses no pair, duplicates none, and keeps their order.
pub fn chunk_entries(entries: &Vec<(u32, u32)>, n: usize) -> (r: Vec<Vec<(u32, u32)>>)
    requires
        n >= 1,
        entries@.len() >= 1,
    ensures
        r@.map_values(|c: Vec<(u32, u32)>| c@).flatten() == entries@,
        forall|j: int| 0 <= j < r@.len() ==> 1 <= (#[trigger] r@[j])@.len() <= n,
        forall|j: int| 0 <= j < r@.len() - 1 ==> (#[trigger] r@[j])@.len() == n,
        forall|j: int| 0 <= j < r@.len() ==> (#[trigger] r@[j])@ == spec_chunk(
            entries@,
            n as int,
            j,
        ),
        r@.len() >= 1,
        (r@.len() - 1) * n < entries@.len() <= r@.len() * n,
{
    let total = entries.len();
    assert(entries@.len() <= usize::MAX);
    let mut r: Vec<Vec<(u32, u32)>> = Vec::new();
    let mut consumed: usize = 0;
    proof {
        assert(r@.map_values(|c: Vec<(u32, u32)>| c@).flatten() =~= Seq::<(u32, u32)>::empty());
    }
    while consumed < entries.len()
        invariant
            consumed <= entries@.len(),
            entries@.len() <= usize::MAX,
            n >= 1,
            r@.map_values(|c: Vec<(u32, u32)>| c@).flatten() == entries@.take(consumed as int),
            forall|j: int| 0 <= j < r@.len() ==> 1 <= (#[trigger] r@[j])@.len() <= n,
            forall|j: int| 0 <= j < r@.len() - 1 ==> (#[trigger] r@[j])@.len() == n,
            forall|j: int| 0 <= j < r@.len() ==> (#[trigger] r@[j])@ == spec_chunk(
                entries@,
                n as int,
                j,
            ),
            r@.len() >= 1 ==> consumed == (r@.len() - 1) * n + r@.last()@.len(),
            r@.len() == 0 ==> consumed == 0,
            consumed < entries@.len() ==> consumed == r@.len() * n,
        decreases entries@.len() - consumed,
    {
        let take_now = if entries.len() - consumed < n {
            entries.len() - consumed
        } else {
            n
        };
        let mut chunk: Vec<(u32, u32)> = Vec::new();
        let mut k: usize = 0;
        while k < take_now
            invariant
                k <= take_now,
                consumed + take_now <= entries@.len(),
                entries@.len() <= usize::MAX,
                chunk@ == entries@.subrange(consumed as int, consumed + k as int),
            decreases take_now - k,
        {
            chunk.push(entries[consumed + k]);
            k = k + 1;
            assert(chunk@ =~= entries@.subrange(consumed as int, consumed + k as int));
        }
        let ghost pre = r@;
        let ghost pre_consumed = consumed as int;
        r.push(chunk);
        consumed = consumed + take_now;
        proof {
            assert(r@.map_values(|c: Vec<(u32, u32)>| c@) =~= pre.map_values(
                |c: Vec<(u32, u32)>| c@,
            ).push(r@.last()@));
            pre.map_values(|c: Vec<(u32, u32)>| c@).lemma_flatten_push(r@.last()@);
            assert(entries@.take(pre_consumed) + entries@.subrange(pre_consumed, consumed as int)
                =~= entries@.take(consumed as int));
            assert(r@.map_values(|c: Vec<(u32, u32)>| c@).flatten() == entries@.take(
                consumed as int,
            ));
            assert((r@.len() - 1) * n == pre.len() * n) by (nonlinear_arith)
                requires
                    r@.len() == pre.len() + 1,
            ;
            assert(pre.len() >= 1 ==> pre.len() * n == (pre.len() - 1) * n + n) by (
            nonlinear_arith);
            assert(r@.len() * n == pre.len() * n + n) by (nonlinear_arith)
                requires
                    r@.len() == pre.len() + 1,
            ;
            assert(pre_consumed == pre.len() * n);
            assert(r@[pre.len() as int]@ =~= spec_chunk(entries@, n as int, pre.len() as int));
        }
    }
    assert(entries@.take(entries@.len() as int) =~= entries@);
    proof {
        assert(r@.len() >= 1);
        assert(entries@.len() == (r@.len() - 1) * n + r@.last()@.len());
        assert((r@.len() - 1) * n + n == r@.len() * n) by (nonlinear_arith);
    }
    r
}

/// Give the nodes of one level group their sibling links: consecutive
/// block indices starting at `first_block`, with zero at the endpoints.
pub fn link_nodes(nodes: &mut Vec<TreeNode>, first_block: u32)
    requires
        first_block >= 1,
        old(nodes)@.len() >= 1,
        first_block + old(nodes)@.len() <= u32::MAX,
    ensures
        final(nodes)@.len() == old(nodes)@.len(),
        forall|k: int|
            0 <= k < final(nodes)@.len() ==> {
                let nd = #[trigger] final(nodes)@[k];
                &&& nd.is_data == old(nodes)@[k].is_data
                &&& nd.entries@ == old(nodes)@[k].entries@
                &&& nd.prev == if k == 0 {
                    0u32
                } else {
                    (first_block + k - 1) as u32
                }
                &&& nd.next == if k == final(nodes)@.len() - 1 {
                    0u32
                } else {
                    (first_block + k + 1) as u32
                }
            },
{
    let len = nodes.len();
    let mut k: usize = 0;
    while k < len
        invariant
            nodes@.len() == old(nodes)@.len(),
            len == nodes@.len(),
            first_block >= 1,
            first_block + nodes@.len() <= u32::MAX,
            k <= len,
            forall|j: int|
                k <= j < nodes@.len() ==> #[trigger] nodes@[j] == old(nodes)@[j],
            forall|j: int|
                0 <= j < k ==> {
                    let nd = #[trigger] nodes@[j];
                    &&& nd.is_data == old(nodes)@[j].is_data
                    &&& nd.entries@ == old(nodes)@[j].entries@
                    &&& nd.prev == if j == 0 {
                        0u32
                    } else {
                        (first_block + j - 1) as u32
                    }
                    &&& nd.next == if j == nodes@.len() - 1 {
                        0u32
                    } else {
                        (first_block + j + 1) as u32
                    }
                },
        decreases len - k,
    {
        let prev = if k == 0 {
            0
        } else {
            first_block + (k as u32) - 1
        };
        let next = if k == len - 1 {
            0
        } else {
            first_block + (k as u32) + 1
        };
        let node = &mut nodes[k];
        node.prev = prev;
        node.next = next;
        k = k + 1;
    }
}

/// Sibling links within one emitted level group are consistent:
/// node `A` names `B` as its next sibling exactly when `B` names `A` as
/// its previous one, and the endpoints carry zero.
pub proof fn lemma_sibling_links_consistent(nodes: Seq<TreeNode>, first_block: int)
    requires
        first_block >= 1,
        first_block + nodes.len() <= u32::MAX,
        forall|k: int|
            0 <= k < nodes.len() ==> (#[trigger] nodes[k]).prev == (if k == 0 {
                0u32
            } else {
                (first_block + k - 1) as u32
            }) && nodes[k].next == (if k == nodes.len() - 1 {
                0u32
            } else {
                (first_block + k + 1) as u32
            }),
    ensures
        forall|i: int, j: int|
            0 <= i < nodes.len() && 0 <= j < nodes.len() ==> ((#[trigger] nodes[i]).next
                == first_block + j <==> (#[trigger] nodes[j]).prev == first_block + i),
        nodes.len() >= 1 ==> nodes[0].prev == 0 && nodes[nodes.len() - 1].next == 0,
{
}

/// Append one node as a whole block.
///
/// The node is padded with zeros so that the emitted block's byte length
/// is exactly `block_len`, as the tree's declared node length promises.
pub fn write_node(node: &TreeNode, block_len: usize, w: &mut ByteWriter, blocks: &mut Blocks) -> (r:
    Result<u32, Error>)
    requires
        old(w).wf(),
        old(w).cursor() == old(w).bytes().len(),
        old(blocks).wf(),
        MIN_BLOCK_LEN <= block_len <= MAX_BLOCK_LEN,
        node.entries@.len() <= spec_max_entries(block_len as int),
    ensures
        final(w).wf(),
        final(blocks).wf(),
        final(w).cursor() == final(w).bytes().len(),
        final(blocks).free_list() == old(blocks).free_list(),
        old(w).bytes().len() <= final(w).bytes().len(),
        final(w).bytes().take(old(w).bytes().len() as int) == old(w).bytes(),
        match r {
            Ok(i) => {
                &&& old(blocks).list().len() < u32::MAX
                &&& i == old(blocks).list().len()
                &&& old(w).bytes().len() <= u32::MAX
                &&& final(blocks).list() == old(blocks).list().push(
                    Block { offset: old(w).bytes().len() as u32, len: block_len as u32 },
                )
                &&& final(w).bytes() == old(w).bytes() + enc_node(
                    node.is_data,
                    node.next,
                    node.prev,
                    node.entries@,
                    block_len as int,
                )
            },
            Err(e) => e == Error::FileTooLarge && final(blocks).list() == old(blocks).list() && (
            old(w).bytes().len() > u32::MAX || old(blocks).list().len() == u32::MAX),
        },
{
    let start = w.position();
    let count = node.entries.len();
    assert(8 * count + 12 <= block_len) by (nonlinear_arith)
        requires
            count <= (block_len - 12) / 8,
            block_len >= 20,
    ;
    w.write_u16(if node.is_data { 1 } else { 0 });
    w.write_u16(count as u16);
    w.write_u32(node.next);
    w.write_u32(node.prev);
    let ghost header = old(w).bytes() + enc_u16(
        if node.is_data {
            1u16
        } else {
            0u16
        },
    ) + enc_u16(node.entries@.len() as u16) + enc_u32(node.next) + enc_u32(node.prev);
    assert(w.bytes() =~= header);
    let mut k: usize = 0;
    assert(enc_list(node.entries@.take(0), |e: (u32, u32)| enc_entry(e)) =~= Seq::<u8>::empty());
    assert(w.bytes() =~= header + enc_list(node.entries@.take(0), |e: (u32, u32)| enc_entry(e)));
    while k < count
        invariant
            k <= count,
            count == node.entries@.len(),
            w.wf(),
            w.cursor() == w.bytes().len(),
            w.bytes() == header + enc_list(node.entries@.take(k as int), |e: (u32, u32)| enc_entry(e)),
        decreases count - k,
    {
        let e = node.entries[k];
        w.write_u32(e.0);
        w.write_u32(e.1);
        proof {
            lemma_enc_list_snoc(node.entries@, k as int, |e: (u32, u32)| enc_entry(e));
            assert(w.bytes() =~= header + enc_list(
                node.entries@.take(k + 1),
                |e: (u32, u32)| enc_entry(e),
            ));
        }
        k = k + 1;
    }
    assert(node.entries@.take(count as int) =~= node.entries@);
    let pad = block_len - NODE_HEADER_LEN - ENTRY_LEN * count;
    w.write_zeros(pad);
    proof {
        lemma_enc_entry_list_len(node.entries@);
        assert(node_payload(node.is_data, node.next, node.prev, node.entries@).len() == 12 + 8
            * count);
        assert(w.bytes() =~= old(w).bytes() + enc_node(
            node.is_data,
            node.next,
            node.prev,
            node.entries@,
            block_len as int,
        ));
    }
    assert(w.bytes().take(old(w).bytes().len() as int) =~= old(w).bytes());
    let end = w.position();
    let i = blocks.append(start, end)?;
    Ok(i)
}

/// Read one node out of block `i`.
///
/// Whether the node is a data node, its sibling links, and its entry
/// pairs are exactly what the block's bytes say; padding past the counted
/// entries is ignored.
pub fn read_node(i: u32, file: &[u8], blocks: &Blocks) -> (r: Result<TreeNode, Error>)
    ensures
        match r {
            Ok(n) => i < blocks.list().len() && ({
                let b = blocks.list()[i as int];
                let data = file@.subrange(b.offset as int, b.end());
                &&& b.end() <= file@.len()
                &&& data.len() >= 12
                &&& n.is_data == (dec_u16(data.subrange(0, 2)) != 0)
                &&& n.entries@.len() == dec_u16(data.subrange(2, 4))
                &&& n.next == dec_u32(data.subrange(4, 8))
                &&& n.prev == dec_u32(data.subrange(8, 12))
                &&& 12 + 8 * n.entries@.len() <= data.len()
                &&& enc_list(n.entries@, |e: (u32, u32)| enc_entry(e)) == data.subrange(
                    12,
                    12 + 8 * (n.entries@.len() as int),
                )
            }),
            Err(e) => (e == Error::InvalidBlockIndex && i >= blocks.list().len()) || (e
                == Error::Truncated && i < blocks.list().len() && ({
                let b = blocks.list()[i as int];
                let data = file@.subrange(b.offset as int, b.end());
                b.end() > file@.len() || data.len() < 12 || data.len() < 12 + 8 * (dec_u16(
                    data.subrange(2, 4),
                ) as int)
            })),
        },
{
    let data = blocks.slice(i, file)?;
    let mut pos: usize = 0;
    let raw_is_data = match read_u16(data, &mut pos) {
        Ok(v) => v,
        Err(e) => {
            return Err(e);
        },
    };
    let count = match read_u16(data, &mut pos) {
        Ok(v) => v,
        Err(e) => {
            return Err(e);
        },
    };
    let next = match read_u32(data, &mut pos) {
        Ok(v) => v,
        Err(e) => {
            return Err(e);
        },
    };
    let prev = match read_u32(data, &mut pos) {
        Ok(v) => v,
        Err(e) => {
            return Err(e);
        },
    };
    proof {
        lemma_dec_enc_u16(raw_is_data);
        lemma_dec_enc_u16(count);
        lemma_dec_enc_u32(next);
        lemma_dec_enc_u32(prev);
        assert(data@.subrange(2, 4) =~= enc_u16(count));
        assert(data@ =~= file@.subrange(
            blocks.list()[i as int].offset as int,
            blocks.list()[i as int].end(),
        ));
    }
    let mut entries: Vec<(u32, u32)> = Vec::new();
    let mut k: u16 = 0;
    assert(enc_list(entries@.take(0), |e: (u32, u32)| enc_entry(e)) =~= Seq::<u8>::empty());
    while k < count
        invariant
            k <= count,
            entries@.len() == k,
            12 <= pos <= data@.len(),
            pos == 12 + 8 * k,
            count == dec_u16(data@.subrange(2, 4)),
            i < blocks.list().len(),
            blocks.list()[i as int].end() <= file@.len(),
            data@ == file@.subrange(
                blocks.list()[i as int].offset as int,
                blocks.list()[i as int].end(),
            ),
            enc_list(entries@, |e: (u32, u32)| enc_entry(e)) == data@.subrange(12, pos as int),
        decreases count - k,
    {
        let ghost pre_pos = pos as int;
        let ghost pre = entries@;
        let a = match read_u32(data, &mut pos) {
            Ok(v) => v,
            Err(e) => {
                proof {
                    assert(data@.len() < 12 + 8 * (count as int));
                }
                return Err(e);
            },
        };
        let b = match read_u32(data, &mut pos) {
            Ok(v) => v,
            Err(e) => {
                proof {
                    assert(data@.len() < 12 + 8 * (count as int));
                }
                return Err(e);
            },
        };
        entries.push((a, b));
        proof {
            lemma_enc_list_snoc(entries@, k as int, |e: (u32, u32)| enc_entry(e));
            assert(entries@.take(k as int) =~= pre);
            assert(entries@.take(k + 1) =~= entries@);
            assert(enc_entry((a, b)) =~= data@.subrange(pre_pos, pos as int));
            assert(data@.subrange(12, pre_pos) + data@.subrange(pre_pos, pos as int)
                =~= data@.subrange(12, pos as int));
            assert(enc_list(entries@, |e: (u32, u32)| enc_entry(e)) =~= data@.subrange(
                12,
                pos as int,
            ));
        }
        k = k + 1;
    }
    let n = TreeNode { is_data: raw_is_data != 0, next, prev, entries };
    proof {
        assert(data@ =~= file@.subrange(
            blocks.list()[i as int].offset as int,
            blocks.list()[i as int].end(),
        ));
        assert(data@.subrange(0, 2) =~= enc_u16(raw_is_data));
        assert(data@.subrange(2, 4) =~= enc_u16(count));
        assert(data@.subrange(4, 8) =~= enc_u32(next));
        assert(data@.subrange(8, 12) =~= enc_u32(prev));
    }
    Ok(n)
}

/// Block `bk` of `bytes` holds a data node with entry list `entries`
/// and exactly the sibling links `nx` and `pv`.
pub open spec fn data_node_written(
    bytes: Seq<u8>,
    bk: Block,
    nx: u32,
    pv: u32,
    entries: Seq<(u32, u32)>,
    l: int,
) -> bool {
    bk.end() <= bytes.len() && bytes.subrange(bk.offset as int, bk.end()) == enc_node(
        true,
        nx,
        pv,
        entries,
        l,
    )
}

/// A written data node stays written when the stream is extended.
pub proof fn lemma_data_node_written_frame(
    b1: Seq<u8>,
    b2: Seq<u8>,
    bk: Block,
    nx: u32,
    pv: u32,
    entries: Seq<(u32, u32)>,
    l: int,
)
    requires
        data_node_written(b1, bk, nx, pv, entries, l),
        b1.len() <= b2.len(),
        b2.take(b1.len() as int) == b1,
    ensures
        data_node_written(b2, bk, nx, pv, entries, l),
{
    crate::io::lemma_extend_preserves_subrange(b1, b2, bk.offset as int, bk.end());
}

/// How many data nodes a tree of `count` entries takes; an empty tree
/// still takes one.
pub open spec fn spec_num_data(count: int, n: int) -> int {
    if count == 0 {
        1
    } else {
        (count - 1) / n + 1
    }
}

/// How many data nodes share one meta group.
pub open spec fn spec_per_meta_of(count: int, n: int) -> int {
    let nd = spec_num_data(count, n);
    let nm = (nd - 1) / n + 1;
    (nd - 1) / nm + 1
}

/// The `c`-th run of up to `n` entries.
pub open spec fn spec_chunk(entries: Seq<(u32, u32)>, n: int, c: int) -> Seq<(u32, u32)> {
    entries.subrange(
        c * n,
        if (c + 1) * n <= entries.len() {
            (c + 1) * n
        } else {
            entries.len() as int
        },
    )
}

/// The previous-sibling link of the `c`-th data node: zero at a group's
/// start, else the preceding block.
pub open spec fn spec_data_prev(old_len: int, pm: int, c: int) -> u32 {
    if c % pm == 0 {
        0u32
    } else {
        (old_len + c - 1) as u32
    }
}

/// The next-sibling link of the `c`-th data node: zero at a group's end
/// and at the last node, else the following block.
pub open spec fn spec_data_next(old_len: int, pm: int, nd: int, c: int) -> u32 {
    if c + 1 == nd || (c + 1) % pm == 0 {
        0u32
    } else {
        (old_len + c + 1) as u32
    }
}

/// One data node suffices below the capacity bound.
proof fn lemma_single_layout(count: int, n: int)
    requires
        n >= 1,
        0 <= count <= n,
    ensures
        spec_num_data(count, n) == 1,
        spec_per_meta_of(count, n) == 1,
{
    if count != 0 {
        vstd::arithmetic::div_mod::lemma_basic_div(count - 1, n);
    }
    vstd::arithmetic::div_mod::lemma_basic_div(0, n);
    vstd::arithmetic::div_mod::lemma_basic_div(0, 1);
}

/// The derived level layout matches the executable computation.
proof fn lemma_multi_layout(count: int, n: int, num_data: int, num_meta: int, per_meta: int)
    requires
        n >= 1,
        num_data >= 1,
        count >= 1,
        (num_data - 1) * n < count,
        count <= num_data * n,
        num_meta == (num_data - 1) / n + 1,
        per_meta == (num_data - 1) / num_meta + 1,
    ensures
        num_data == spec_num_data(count, n),
        per_meta == spec_per_meta_of(count, n),
        num_meta >= 1,
        num_meta <= num_data,
        1 <= per_meta <= n,
        per_meta * num_meta >= num_data,
        per_meta <= num_data,
        num_data <= count,
{
    vstd::arithmetic::div_mod::lemma_fundamental_div_mod(num_data - 1, n);
    assert(num_meta * n >= num_data && num_meta <= num_data) by (nonlinear_arith)
        requires
            n >= 1,
            num_data >= 1,
            num_data - 1 == n * ((num_data - 1) / n) + (num_data - 1) % n,
            0 <= (num_data - 1) % n < n,
            num_meta == (num_data - 1) / n + 1,
    ;
    vstd::arithmetic::div_mod::lemma_fundamental_div_mod(num_data - 1, num_meta);
    assert(per_meta * num_meta >= num_data && per_meta <= num_data) by (nonlinear_arith)
        requires
            num_meta >= 1,
            num_data >= 1,
            num_data - 1 == num_meta * ((num_data - 1) / num_meta) + (num_data - 1) % num_meta,
            0 <= (num_data - 1) % num_meta < num_meta,
            per_meta == (num_data - 1) / num_meta + 1,
    ;
    assert(per_meta <= n) by (nonlinear_arith)
        requires
            n >= 1,
            num_meta >= 1,
            num_data >= 1,
            num_meta * n >= num_data,
            per_meta * num_meta >= num_data,
            per_meta <= num_data,
            per_meta == (num_data - 1) / num_meta + 1,
            num_data - 1 == num_meta * ((num_data - 1) / num_meta) + (num_data - 1) % num_meta,
            0 <= (num_data - 1) % num_meta < num_meta,
    ;
    assert((num_data - 1) * 1 <= (num_data - 1) * n) by (nonlinear_arith)
        requires
            n >= 1,
            num_data >= 1,
    ;
    assert(num_data * n - (num_data - 1) * n == n) by (nonlinear_arith);
    vstd::arithmetic::div_mod::lemma_fundamental_div_mod_converse(
        count - 1,
        n,
        num_data - 1,
        count - 1 - (num_data - 1) * n,
    );
}

/// The emitted sibling links are consistent: data node `c1` names data
/// node `c2` as its next sibling exactly when `c2` names `c1` as its
/// previous one; a zero link never names a node, as block zero is the
/// reserved null block.
pub proof fn lemma_emitted_links_consistent(old_len: int, pm: int, nd: int, c1: int, c2: int)
    requires
        1 <= old_len,
        1 <= pm,
        1 <= nd,
        old_len + nd <= u32::MAX,
        0 <= c1 < nd,
        0 <= c2 < nd,
    ensures
        spec_data_next(old_len, pm, nd, c1) == (old_len + c2) as u32 <==> spec_data_prev(
            old_len,
            pm,
            c2,
        ) == (old_len + c1) as u32,
{
    assert(spec_data_next(old_len, pm, nd, c1) == (old_len + c2) as u32 ==> spec_data_prev(
        old_len,
        pm,
        c2,
    ) == (old_len + c1) as u32) by {
        if spec_data_next(old_len, pm, nd, c1) == (old_len + c2) as u32 {
            if c1 + 1 == nd || (c1 + 1) % pm == 0 {
                assert((old_len + c2) as u32 == 0u32);
                assert(false);
            }
            assert(c2 == c1 + 1);
            assert(c2 % pm != 0);
        }
    }
    assert(spec_data_prev(old_len, pm, c2) == (old_len + c1) as u32 ==> spec_data_next(
        old_len,
        pm,
        nd,
        c1,
    ) == (old_len + c2) as u32) by {
        if spec_data_prev(old_len, pm, c2) == (old_len + c1) as u32 {
            if c2 % pm == 0 {
                assert((old_len + c1) as u32 == 0u32);
                assert(false);
            }
            assert(c2 - 1 == c1);
            assert(c1 + 1 < nd);
            assert((c1 + 1) % pm != 0);
        }
    }
}

/// Block `bk` of `bytes` holds a meta node with entry list `entries`
/// and exactly the sibling links `nx` and `pv`.
pub open spec fn meta_node_written(
    bytes: Seq<u8>,
    bk: Block,
    nx: u32,
    pv: u32,
    entries: Seq<(u32, u32)>,
    l: int,
) -> bool {
    bk.end() <= bytes.len() && bytes.subrange(bk.offset as int, bk.end()) == enc_node(
        false,
        nx,
        pv,
        entries,
        l,
    )
}

/// A written meta node stays written when the stream is extended.
pub proof fn lemma_meta_node_written_frame(
    b1: Seq<u8>,
    b2: Seq<u8>,
    bk: Block,
    nx: u32,
    pv: u32,
    entries: Seq<(u32, u32)>,
    l: int,
)
    requires
        meta_node_written(b1, bk, nx, pv, entries, l),
        b1.len() <= b2.len(),
        b2.take(b1.len() as int) == b1,
    ensures
        meta_node_written(b2, bk, nx, pv, entries, l),
{
    crate::io::lemma_extend_preserves_subrange(b1, b2, bk.offset as int, bk.end());
}

/// How many meta nodes the grouping takes: one per run of
/// `spec_per_meta_of` data nodes.
pub open spec fn spec_num_groups(count: int, n: int) -> int {
    (spec_num_data(count, n) - 1) / spec_per_meta_of(count, n) + 1
}

/// The `m`-th meta node's entries: its group's data node blocks in
/// order, each paired with the block of its chunk's last value.
pub open spec fn spec_meta_entries(
    old_len: int,
    entries: Seq<(u32, u32)>,
    n: int,
    m: int,
) -> Seq<(u32, u32)> {
    let nd = spec_num_data(entries.len() as int, n);
    let pm = spec_per_meta_of(entries.len() as int, n);
    let lo = m * pm;
    let hi = if lo + pm <= nd {
        lo + pm
    } else {
        nd
    };
    Seq::new(
        (hi - lo) as nat,
        |k: int| (((old_len + lo + k) as u32), spec_chunk(entries, n, lo + k).last().1),
    )
}

/// The previous-sibling link of the `m`-th meta node.
pub open spec fn spec_meta_prev(meta_first: int, m: int) -> u32 {
    if m == 0 {
        0u32
    } else {
        (meta_first + m - 1) as u32
    }
}

/// The next-sibling link of the `m`-th meta node.
pub open spec fn spec_meta_next(meta_first: int, ng: int, m: int) -> u32 {
    if m == ng - 1 {
        0u32
    } else {
        (meta_first + m + 1) as u32
    }
}

/// The meta level as written, for trees past one data node: block
/// `old_len + nd + m` holds the `m`-th meta node, its entries naming its
/// group's data nodes in order with their last value blocks, its links
/// chaining the whole level with zero endpoints.
pub open spec fn tree_meta_written(
    bytes: Seq<u8>,
    list: Seq<Block>,
    old_len: int,
    entries: Seq<(u32, u32)>,
    l: int,
) -> bool {
    let n = spec_max_entries(l);
    if entries.len() <= n {
        true
    } else {
        let nd = spec_num_data(entries.len() as int, n);
        let ng = spec_num_groups(entries.len() as int, n);
        forall|m: int|
            0 <= m < ng ==> meta_node_written(
                bytes,
                #[trigger] list[old_len + nd + m],
                spec_meta_next(old_len + nd, ng, m),
                spec_meta_prev(old_len + nd, m),
                spec_meta_entries(old_len, entries, n, m),
                l,
            )
    }
}

/// The descriptor's root: the single data node, or the first meta node,
/// which follows the data level.
pub open spec fn spec_tree_root(old_len: int, count: int, n: int) -> int {
    if count <= n {
        old_len
    } else {
        old_len + spec_num_data(count, n)
    }
}

/// A descriptor block for a tree of `count` entries with node length
/// `l`, naming the level layout's own root block.
pub open spec fn tree_desc_written(
    bytes: Seq<u8>,
    d: Block,
    old_len: int,
    l: int,
    count: int,
) -> bool {
    &&& d.len == 21
    &&& d.end() <= bytes.len()
    &&& bytes.subrange(d.offset as int, d.end()) == enc_tree_desc(
        spec_tree_root(old_len, count, spec_max_entries(l)) as u32,
        l as u32,
        count as u32,
    )
}

/// The data level as written: block `old_len + c` holds the `c`-th run
/// of up to `n` entries as a data node, linked to its neighbours within
/// its level group and unlinked at the group boundaries.  The runs cover
/// the supplied entries exactly, in order.
pub open spec fn tree_data_written(
    bytes: Seq<u8>,
    list: Seq<Block>,
    old_len: int,
    entries: Seq<(u32, u32)>,
    l: int,
) -> bool {
    let n = spec_max_entries(l);
    let nd = spec_num_data(entries.len() as int, n);
    let pm = spec_per_meta_of(entries.len() as int, n);
    forall|c: int|
        0 <= c < nd ==> data_node_written(
            bytes,
            #[trigger] list[old_len + c],
            spec_data_next(old_len, pm, nd, c),
            spec_data_prev(old_len, pm, c),
            spec_chunk(entries, n, c),
            l,
        )
}

/// What a successful tree write leaves behind, for a store that held
/// `old_len` blocks before the write.
pub open spec fn tree_written_at(
    old_len: int,
    w1: ByteWriter,
    b1: Blocks,
    i: u32,
    entries: Seq<(u32, u32)>,
    block_len: int,
) -> bool {
    let l = spec_clamp_block_len(block_len);
    &&& old_len <= i < u32::MAX
    &&& i == b1.list().len() - 1
    &&& b1.list().len() <= old_len + 2 * entries.len() + 3
    &&& (forall|j: int| old_len <= j < i ==> (#[trigger] b1.list()[j]).len == l)
    &&& tree_desc_written(w1.bytes(), b1.list()[i as int], old_len, l, entries.len() as int)
    &&& tree_data_written(w1.bytes(), b1.list(), old_len, entries, l)
    &&& tree_meta_written(w1.bytes(), b1.list(), old_len, entries, l)
}

/// What a successful tree write leaves behind.
pub open spec fn tree_written(
    b0: Blocks,
    w1: ByteWriter,
    b1: Blocks,
    i: u32,
    entries: Seq<(u32, u32)>,
    block_len: int,
) -> bool {
    tree_written_at(b0.list().len() as int, w1, b1, i, entries, block_len)
}

/// The node length actually used for a requested `block_len`.
pub open spec fn spec_clamp_block_len(l: int) -> int {
    if l < 20 {
        20
    } else if l > 65536 {
        65536
    } else {
        l
    }
}

/// A copy of a pair list.
fn copy_pairs(src: &Vec<(u32, u32)>) -> (r: Vec<(u32, u32)>)
    ensures
        r@ == src@,
{
    let mut r: Vec<(u32, u32)> = Vec::new();
    let mut k: usize = 0;
    while k < src.len()
        invariant
            k <= src@.len(),
            r@ == src@.take(k as int),
        decreases src@.len() - k,
    {
        r.push(src[k]);
        k = k + 1;
        assert(r@ =~= src@.take(k as int));
    }
    assert(src@.take(src@.len() as int) =~= src@);
    r
}

/// The descriptor append completes the layout: everything written
/// before it stays in place and the whole tree shape is established.
#[verifier::rlimit(100)]
#[verifier::spinoff_prover]
proof fn lemma_finish_tree(
    pre_bytes: Seq<u8>,
    pre_list: Seq<Block>,
    w1: ByteWriter,
    b1: Blocks,
    i: u32,
    root: u32,
    old_len: int,
    entries: Seq<(u32, u32)>,
    block_len: int,
    l: int,
)
    requires
        l == spec_clamp_block_len(block_len),
        MIN_BLOCK_LEN <= l <= MAX_BLOCK_LEN,
        entries.len() <= u32::MAX,
        0 <= old_len,
        old_len + spec_num_data(entries.len() as int, spec_max_entries(l)) <= pre_list.len(),
        entries.len() > spec_max_entries(l) ==> old_len + spec_num_data(
            entries.len() as int,
            spec_max_entries(l),
        ) + spec_num_groups(entries.len() as int, spec_max_entries(l)) <= pre_list.len(),
        pre_list.len() <= old_len + 2 * entries.len() + 2,
        pre_list.len() < u32::MAX,
        i as int == pre_list.len(),
        b1.list() == pre_list.push(Block { offset: pre_bytes.len() as u32, len: 21u32 }),
        pre_bytes.len() <= u32::MAX,
        w1.bytes() == pre_bytes + enc_tree_desc(root, l as u32, entries.len() as u32),
        root as int == spec_tree_root(old_len, entries.len() as int, spec_max_entries(l)),
        tree_data_written(pre_bytes, pre_list, old_len, entries, l),
        tree_meta_written(pre_bytes, pre_list, old_len, entries, l),
        forall|j: int| old_len <= j < pre_list.len() ==> (#[trigger] pre_list[j]).len == l,
    ensures
        tree_written_at(old_len, w1, b1, i, entries, block_len),
{
    let n_spec = spec_max_entries(l);
    let nd = spec_num_data(entries.len() as int, n_spec);
    let count = entries.len() as int;
    assert(w1.bytes().take(pre_bytes.len() as int) =~= pre_bytes);
    let d = b1.list()[i as int];
    assert(d.len == 21);
    assert(w1.bytes().subrange(d.offset as int, d.end()) =~= enc_tree_desc(
        root,
        l as u32,
        entries.len() as u32,
    ));
    assert(tree_desc_written(w1.bytes(), d, old_len, l, count));
    let pm = spec_per_meta_of(count, n_spec);
    assert forall|c: int| 0 <= c < nd implies data_node_written(
        w1.bytes(),
        #[trigger] b1.list()[old_len + c],
        spec_data_next(old_len, pm, nd, c),
        spec_data_prev(old_len, pm, c),
        spec_chunk(entries, n_spec, c),
        l,
    ) by {
        let bk = pre_list[old_len + c];
        assert(b1.list()[old_len + c] == bk);
        lemma_data_node_written_frame(
            pre_bytes,
            w1.bytes(),
            bk,
            spec_data_next(old_len, pm, nd, c),
            spec_data_prev(old_len, pm, c),
            spec_chunk(entries, n_spec, c),
            l,
        );
    }
    assert(tree_data_written(w1.bytes(), b1.list(), old_len, entries, l));
    assert(tree_meta_written(w1.bytes(), b1.list(), old_len, entries, l)) by {
        if entries.len() > n_spec {
            let ng = spec_num_groups(count, n_spec);
            assert forall|m: int| 0 <= m < ng implies meta_node_written(
                w1.bytes(),
                #[trigger] b1.list()[old_len + nd + m],
                spec_meta_next(old_len + nd, ng, m),
                spec_meta_prev(old_len + nd, m),
                spec_meta_entries(old_len, entries, n_spec, m),
                l,
            ) by {
                let bk = pre_list[old_len + nd + m];
                assert(meta_node_written(
                    pre_bytes,
                    bk,
                    spec_meta_next(old_len + nd, ng, m),
                    spec_meta_prev(old_len + nd, m),
                    spec_meta_entries(old_len, entries, n_spec, m),
                    l,
                ));
                assert(b1.list()[old_len + nd + m] == bk);
                lemma_meta_node_written_frame(
                    pre_bytes,
                    w1.bytes(),
                    bk,
                    spec_meta_next(old_len + nd, ng, m),
                    spec_meta_prev(old_len + nd, m),
                    spec_meta_entries(old_len, entries, n_spec, m),
                    l,
                );
            }
        }
    }
}

/// Write a flat entry list as a paged tree and return the index of its
/// descriptor block.
///
/// Every node is emitted as a block of exactly the clamped node length.
/// The entry pairs are distributed over consecutive data nodes whose
/// concatenation is exactly the input list; sibling links tie each level
/// group together; a meta level is added when one data node is not
/// enough; the descriptor comes last.
#[verifier::rlimit(100)]
#[verifier::spinoff_prover]
pub fn write_tree(
    entries: &Vec<(u32, u32)>,
    block_len: usize,
    w: &mut ByteWriter,
    blocks: &mut Blocks,
) -> (r: Result<u32, Error>)
    requires
        old(w).wf(),
        old(w).cursor() == old(w).bytes().len(),
        old(blocks).wf(),
        old(blocks).list().len() >= 1,
        entries@.len() <= u32::MAX,
    ensures
        final(w).wf(),
        final(blocks).wf(),
        final(w).cursor() == final(w).bytes().len(),
        final(blocks).free_list() == old(blocks).free_list(),
        old(blocks).list().len() <= final(blocks).list().len(),
        final(blocks).list().len() <= old(blocks).list().len() + 2 * entries@.len() + 3,
        old(w).bytes().len() <= final(w).bytes().len(),
        final(w).bytes().take(old(w).bytes().len() as int) == old(w).bytes(),
        forall|j: int|
            0 <= j < old(blocks).list().len() ==> #[trigger] final(blocks).list()[j] == old(
                blocks,
            ).list()[j],
        match r {
            Ok(i) => tree_written(*old(blocks), *final(w), *final(blocks), i, entries@, block_len as int),
            Err(e) => e == Error::FileTooLarge && (final(w).bytes().len() > u32::MAX || 2 * final(
                blocks
            ).list().len() + 8192 > u32::MAX),
        },
{
    let l = if block_len < MIN_BLOCK_LEN {
        MIN_BLOCK_LEN
    } else if block_len > MAX_BLOCK_LEN {
        MAX_BLOCK_LEN
    } else {
        block_len
    };
    let n = max_entries_per_block(l);
    let count = entries.len();
    let ghost old_len = blocks.list().len() as int;
    let ghost old_bytes = w.bytes();
    let ghost l_spec = l as int;
    let root: u32;
    let ghost nd_g: int;
    let ghost pm_g: int;
    let ghost ng_g: int;
    if count <= n {
        let node = TreeNode { is_data: true, next: 0, prev: 0, entries: copy_pairs(entries) };
        let wn = write_node(&node, l, w, blocks);
        let single = match wn {
            Ok(x) => x,
            Err(e) => {
                return Err(e);
            },
        };
        root = single;
        proof {
            nd_g = spec_num_data(count as int, n as int);
            pm_g = spec_per_meta_of(count as int, n as int);
            lemma_single_layout(count as int, n as int);
            assert(nd_g == 1);
            assert(pm_g == 1);
            lemma_enc_entry_list_len(entries@);
            let bk = blocks.list()[old_len];
            assert(w.bytes().subrange(bk.offset as int, bk.end()) =~= enc_node(
                true,
                0u32,
                0u32,
                entries@,
                l_spec,
            ));
            assert(0 * (n as int) == 0 && (0 + 1) * (n as int) == n as int) by (nonlinear_arith);
            assert(spec_chunk(entries@, n as int, 0) =~= entries@);
            assert(spec_data_next(old_len, pm_g, nd_g, 0) == 0u32);
            assert(spec_data_prev(old_len, pm_g, 0) == 0u32);
            assert(data_node_written(w.bytes(), bk, 0u32, 0u32, entries@, l_spec));
            assert(root as int == spec_tree_root(old_len, count as int, n as int));
            ng_g = 0;
            assert(tree_meta_written(w.bytes(), blocks.list(), old_len, entries@, l_spec));
        }
    } else {
        let chunks = chunk_entries(entries, n);
        let num_data = chunks.len();
        proof {
            assert((num_data - 1) * 1 <= (num_data - 1) * n) by (nonlinear_arith)
                requires
                    n >= 1,
                    num_data >= 1,
            ;
            assert(num_data <= entries@.len());
        }
        let num_meta = (num_data - 1) / n + 1;
        let per_meta = (num_data - 1) / num_meta + 1;
        proof {
            lemma_multi_layout(
                count as int,
                n as int,
                num_data as int,
                num_meta as int,
                per_meta as int,
            );
            nd_g = num_data as int;
            pm_g = per_meta as int;
            assert(pm_g == spec_per_meta_of(count as int, n as int));
        }
        let mut meta_nodes: Vec<TreeNode> = Vec::new();
        let mut g: usize = 0;
        proof {
            assert(0int * (per_meta as int) == 0) by (nonlinear_arith);
        }
        while g < num_data
            invariant
                g <= num_data,
                num_data <= entries@.len(),
                num_data == chunks@.len(),
                1 <= per_meta <= n,
                n == spec_max_entries(l_spec),
                l == l_spec,
                MIN_BLOCK_LEN <= l <= MAX_BLOCK_LEN,
                forall|c: int| 0 <= c < chunks@.len() ==> 1 <= (#[trigger] chunks@[c])@.len() <= n,
                w.wf(),
                w.cursor() == w.bytes().len(),
                old(w).bytes().len() <= w.bytes().len(),
                w.bytes().take(old(w).bytes().len() as int) == old(w).bytes(),
                blocks.wf(),
                blocks.free_list() == old(blocks).free_list(),
                old_len == old(blocks).list().len() as int,
                old_len >= 1,
                chunks@.len() <= usize::MAX,
                forall|j: int|
                    0 <= j < old_len ==> #[trigger] blocks.list()[j] == old(blocks).list()[j],
                blocks.list().len() == old_len + g,
                forall|j: int| old_len <= j < blocks.list().len() ==> (#[trigger] blocks.list()[j]).len
                    == l_spec,
                count == entries@.len(),
                nd_g == num_data as int,
                pm_g == per_meta as int,
                nd_g == spec_num_data(count as int, n as int),
                pm_g == spec_per_meta_of(count as int, n as int),
                g % per_meta == 0 || g == num_data,
                forall|j: int| 0 <= j < chunks@.len() ==> (#[trigger] chunks@[j])@ == spec_chunk(
                    entries@,
                    n as int,
                    j,
                ),
                forall|c: int|
                    0 <= c < g ==> data_node_written(
                        w.bytes(),
                        #[trigger] blocks.list()[old_len + c],
                        spec_data_next(old_len, pm_g, nd_g, c),
                        spec_data_prev(old_len, pm_g, c),
                        chunks@[c]@,
                        l_spec,
                    ),
                meta_nodes@.len() <= g,
                g >= 1 ==> meta_nodes@.len() >= 1,
                g == meta_nodes@.len() * per_meta || (g == num_data && meta_nodes@.len() >= 1
                    && num_data <= meta_nodes@.len() * per_meta && (meta_nodes@.len() - 1)
                    * per_meta < num_data),
                forall|m: int|
                    0 <= m < meta_nodes@.len() ==> !(#[trigger] meta_nodes@[m]).is_data
                        && meta_nodes@[m].entries@.len() <= n,
                forall|m: int|
                    0 <= m < meta_nodes@.len() ==> (#[trigger] meta_nodes@[m]).entries@
                        == spec_meta_entries(old_len, entries@, n as int, m),
            decreases num_data - g,
        {
            let group_n = if num_data - g < per_meta {
                num_data - g
            } else {
                per_meta
            };
            let first_block = blocks.next_block_index();
            if (first_block as u64) + (group_n as u64) > u32::MAX as u64 {
                proof {
                    assert(group_n <= n <= 8190);
                    assert(2 * final(blocks).list().len() + 8192 > u32::MAX);
                }
                return Err(Error::FileTooLarge);
            }
            // build this group's data nodes, then link and emit them
            let mut group: Vec<TreeNode> = Vec::new();
            let mut k: usize = 0;
            while k < group_n
                invariant
                    k <= group_n,
                    g + group_n <= chunks@.len(),
                    chunks@.len() <= usize::MAX,
                    group@.len() == k,
                    forall|t: int|
                        0 <= t < k ==> (#[trigger] group@[t]).is_data && group@[t].entries@
                            == chunks@[g + t]@,
                decreases group_n - k,
            {
                group.push(
                    TreeNode {
                        is_data: true,
                        next: 0,
                        prev: 0,
                        entries: copy_pairs(&chunks[g + k]),
                    },
                );
                k = k + 1;
            }
            link_nodes(&mut group, first_block);
            let mut me: Vec<(u32, u32)> = Vec::new();
            let mut k2: usize = 0;
            while k2 < group_n
                invariant
                    k2 <= group_n,
                    g + group_n <= chunks@.len(),
                    num_data <= entries@.len(),
                    num_data == chunks@.len(),
                    group@.len() == group_n,
                    n == spec_max_entries(l_spec),
                    l == l_spec,
                    MIN_BLOCK_LEN <= l <= MAX_BLOCK_LEN,
                    forall|c: int| 0 <= c < chunks@.len() ==> 1 <= (#[trigger] chunks@[c])@.len()
                        <= n,
                    forall|t: int|
                        0 <= t < group_n ==> (#[trigger] group@[t]).is_data && group@[t].entries@
                            == chunks@[g + t]@,
                    forall|t: int|
                        0 <= t < group_n ==> (#[trigger] group@[t]).prev == (if t == 0 {
                            0u32
                        } else {
                            (first_block + t - 1) as u32
                        }) && group@[t].next == (if t == group_n - 1 {
                            0u32
                        } else {
                            (first_block + t + 1) as u32
                        }),
                    me@.len() == k2,
                    forall|t: int|
                        0 <= t < k2 ==> #[trigger] me@[t] == (
                            ((old_len + g + t) as u32),
                            spec_chunk(entries@, n as int, g + t).last().1,
                        ),
                    w.wf(),
                    w.cursor() == w.bytes().len(),
                    old(w).bytes().len() <= w.bytes().len(),
                    w.bytes().take(old(w).bytes().len() as int) == old(w).bytes(),
                    blocks.wf(),
                    blocks.free_list() == old(blocks).free_list(),
                    old_len == old(blocks).list().len() as int,
                    old_len >= 1,
                    chunks@.len() <= usize::MAX,
                    count == entries@.len(),
                    nd_g == num_data as int,
                    pm_g == per_meta as int,
                    1 <= per_meta <= n,
                    first_block as int == old_len + g,
                    g % per_meta == 0,
                    g + group_n <= num_data,
                    group_n as int == (if num_data - g < per_meta {
                        (num_data - g) as int
                    } else {
                        per_meta as int
                    }),
                    forall|j: int| 0 <= j < chunks@.len() ==> (#[trigger] chunks@[j])@
                        == spec_chunk(entries@, n as int, j),
                    forall|j: int|
                        0 <= j < old_len ==> #[trigger] blocks.list()[j] == old(blocks).list()[j],
                    blocks.list().len() == old_len + g + k2,
                    forall|j: int|
                        old_len <= j < blocks.list().len() ==> (#[trigger] blocks.list()[j]).len
                            == l_spec,
                    forall|c: int|
                        0 <= c < g + k2 ==> data_node_written(
                            w.bytes(),
                            #[trigger] blocks.list()[old_len + c],
                            spec_data_next(old_len, pm_g, nd_g, c),
                            spec_data_prev(old_len, pm_g, c),
                            chunks@[c]@,
                            l_spec,
                        ),
                decreases group_n - k2,
            {
                let ghost pre_bytes = w.bytes();
                let ghost pre_list = blocks.list();
                let node_ref = &group[k2];
                let blkidx = match write_node(node_ref, l, w, blocks) {
                    Ok(x) => x,
                    Err(e) => {
                        return Err(e);
                    },
                };
                let lastidx = node_ref.entries.len() - 1;
                let last_val = node_ref.entries[lastidx].1;
                me.push((blkidx, last_val));
                proof {
                    assert(node_ref.entries@ == spec_chunk(entries@, n as int, g + k2 as int));
                    assert(me@[k2 as int] == (
                        ((old_len + g + k2) as u32),
                        spec_chunk(entries@, n as int, g + k2 as int).last().1,
                    ));
                }
                proof {
                    assert(w.bytes().take(pre_bytes.len() as int) =~= pre_bytes);
                    // this node's links are the level-group formulas
                    let c0 = g + k2 as int;
                    vstd::arithmetic::div_mod::lemma_add_mod_noop(g as int, k2 as int, pm_g);
                    vstd::arithmetic::div_mod::lemma_small_mod(k2 as nat, pm_g as nat);
                    assert(c0 % pm_g == k2 as int);
                    assert(group@[k2 as int].prev == spec_data_prev(old_len, pm_g, c0));
                    if k2 == group_n - 1 {
                        if group_n == per_meta {
                            vstd::arithmetic::div_mod::lemma_add_mod_noop(
                                g as int,
                                per_meta as int,
                                pm_g,
                            );
                            vstd::arithmetic::div_mod::lemma_mod_self_0(pm_g);
                            assert((c0 + 1) % pm_g == 0);
                        } else {
                            assert(c0 + 1 == nd_g);
                        }
                        assert(group@[k2 as int].next == spec_data_next(old_len, pm_g, nd_g, c0));
                    } else {
                        vstd::arithmetic::div_mod::lemma_add_mod_noop(
                            g as int,
                            k2 + 1,
                            pm_g,
                        );
                        vstd::arithmetic::div_mod::lemma_small_mod((k2 + 1) as nat, pm_g as nat);
                        assert((c0 + 1) % pm_g == k2 + 1);
                        assert(c0 + 1 < g + group_n);
                        assert(group@[k2 as int].next == spec_data_next(old_len, pm_g, nd_g, c0));
                    }
                    assert forall|c: int| 0 <= c < g + k2 + 1 implies data_node_written(
                        w.bytes(),
                        #[trigger] blocks.list()[old_len + c],
                        spec_data_next(old_len, pm_g, nd_g, c),
                        spec_data_prev(old_len, pm_g, c),
                        chunks@[c]@,
                        l_spec,
                    ) by {
                        if c < g + k2 {
                            let bk = pre_list[old_len + c];
                            assert(blocks.list()[old_len + c] == bk);
                            lemma_data_node_written_frame(
                                pre_bytes,
                                w.bytes(),
                                bk,
                                spec_data_next(old_len, pm_g, nd_g, c),
                                spec_data_prev(old_len, pm_g, c),
                                chunks@[c]@,
                                l_spec,
                            );
                        } else {
                            let bk = blocks.list()[old_len + c];
                            assert(bk.offset == pre_bytes.len() && bk.len == l_spec);
                            lemma_enc_entry_list_len(chunks@[c]@);
                            assert(w.bytes().subrange(bk.offset as int, bk.end()) =~= enc_node(
                                true,
                                group@[k2 as int].next,
                                group@[k2 as int].prev,
                                chunks@[c]@,
                                l_spec,
                            ));
                        }
                    }
                }
                k2 = k2 + 1;
            }
            let ghost pre_meta = meta_nodes@;
            proof {
                assert(g == pre_meta.len() * per_meta);
                let lo = pre_meta.len() * (per_meta as int);
                let hi = if lo + per_meta <= num_data {
                    lo + per_meta as int
                } else {
                    num_data as int
                };
                assert(lo == g);
                assert(hi == g + group_n);
                assert(spec_meta_entries(old_len, entries@, n as int, pre_meta.len() as int).len()
                    == group_n);
                assert forall|t: int| 0 <= t < group_n implies #[trigger] me@[t]
                    == spec_meta_entries(old_len, entries@, n as int, pre_meta.len() as int)[t] by {
                    assert(me@[t] == (
                        ((old_len + g + t) as u32),
                        spec_chunk(entries@, n as int, g + t).last().1,
                    ));
                    assert(spec_meta_entries(old_len, entries@, n as int, pre_meta.len() as int)[t]
                        == (((old_len + lo + t) as u32), spec_chunk(entries@, n as int, lo + t).last().1));
                }
                assert(me@ =~= spec_meta_entries(old_len, entries@, n as int, pre_meta.len() as int));
            }
            meta_nodes.push(TreeNode { is_data: false, next: 0, prev: 0, entries: me });
            proof {
                assert(meta_nodes@.last().entries@ == spec_meta_entries(
                    old_len,
                    entries@,
                    n as int,
                    pre_meta.len() as int,
                ));
                assert((pre_meta.len() + 1) * per_meta == pre_meta.len() * per_meta + per_meta) by (
                nonlinear_arith);
                if group_n == per_meta {
                    vstd::arithmetic::div_mod::lemma_add_mod_noop(
                        g as int,
                        per_meta as int,
                        per_meta as int,
                    );
                    vstd::arithmetic::div_mod::lemma_mod_self_0(per_meta as int);
                    assert((g + group_n) % (per_meta as int) == 0);
                    assert(g + group_n == meta_nodes@.len() * per_meta);
                } else {
                    assert(g + group_n == num_data);
                    assert(num_data <= meta_nodes@.len() * per_meta);
                    assert((meta_nodes@.len() - 1) * per_meta == pre_meta.len() * per_meta) by (
                    nonlinear_arith)
                        requires
                            meta_nodes@.len() == pre_meta.len() + 1,
                    ;
                }
            }
            g = g + group_n;
        }
        // the meta level
        let meta_first = blocks.next_block_index();
        if (meta_first as u64) + (meta_nodes.len() as u64) > u32::MAX as u64 {
            proof {
                assert(meta_nodes@.len() <= blocks.list().len());
                assert(2 * final(blocks).list().len() + 8192 > u32::MAX);
            }
            return Err(Error::FileTooLarge);
        }
        assert(meta_nodes@.len() >= 1);
        proof {
            if g == meta_nodes@.len() * per_meta {
                assert((meta_nodes@.len() - 1) * per_meta == meta_nodes@.len() * per_meta
                    - per_meta) by (nonlinear_arith);
            }
            assert((meta_nodes@.len() - 1) * (per_meta as int) < num_data as int);
            assert(num_data as int <= meta_nodes@.len() * (per_meta as int));
        }
        link_nodes(&mut meta_nodes, meta_first);
        let mut m: usize = 0;
        while m < meta_nodes.len()
            invariant
                m <= meta_nodes@.len(),
                meta_nodes@.len() >= 1,
                meta_nodes@.len() <= num_data,
                num_data <= entries@.len(),
                num_data == chunks@.len(),
                meta_first as int == old_len + num_data,
                1 <= per_meta,
                pm_g == per_meta as int,
                (meta_nodes@.len() - 1) * (per_meta as int) < num_data as int,
                num_data as int <= meta_nodes@.len() * (per_meta as int),
                forall|t: int|
                    0 <= t < meta_nodes@.len() ==> (#[trigger] meta_nodes@[t]).entries@
                        == spec_meta_entries(old_len, entries@, n as int, t),
                forall|t: int|
                    0 <= t < meta_nodes@.len() ==> (#[trigger] meta_nodes@[t]).prev == (if t == 0 {
                        0u32
                    } else {
                        ((meta_first as int) + t - 1) as u32
                    }) && meta_nodes@[t].next == (if t == meta_nodes@.len() - 1 {
                        0u32
                    } else {
                        ((meta_first as int) + t + 1) as u32
                    }),
                forall|t: int|
                    0 <= t < m ==> meta_node_written(
                        w.bytes(),
                        #[trigger] blocks.list()[old_len + num_data + t],
                        (if t == meta_nodes@.len() - 1 {
                            0u32
                        } else {
                            ((meta_first as int) + t + 1) as u32
                        }),
                        (if t == 0 {
                            0u32
                        } else {
                            ((meta_first as int) + t - 1) as u32
                        }),
                        spec_meta_entries(old_len, entries@, n as int, t),
                        l_spec,
                    ),
                n == spec_max_entries(l_spec),
                l == l_spec,
                MIN_BLOCK_LEN <= l <= MAX_BLOCK_LEN,
                forall|t: int|
                    0 <= t < meta_nodes@.len() ==> !(#[trigger] meta_nodes@[t]).is_data
                        && meta_nodes@[t].entries@.len() <= n,
                w.wf(),
                w.cursor() == w.bytes().len(),
                old(w).bytes().len() <= w.bytes().len(),
                w.bytes().take(old(w).bytes().len() as int) == old(w).bytes(),
                blocks.wf(),
                blocks.free_list() == old(blocks).free_list(),
                old_len == old(blocks).list().len() as int,
                old_len >= 1,
                forall|j: int|
                    0 <= j < old_len ==> #[trigger] blocks.list()[j] == old(blocks).list()[j],
                blocks.list().len() == old_len + num_data + m,
                forall|j: int|
                    old_len <= j < blocks.list().len() ==> (#[trigger] blocks.list()[j]).len
                        == l_spec,
                count == entries@.len(),
                nd_g == num_data as int,
                pm_g == spec_per_meta_of(count as int, n as int),
                nd_g == spec_num_data(count as int, n as int),
                forall|j: int| 0 <= j < chunks@.len() ==> (#[trigger] chunks@[j])@ == spec_chunk(
                    entries@,
                    n as int,
                    j,
                ),
                forall|c: int|
                    0 <= c < num_data ==> data_node_written(
                        w.bytes(),
                        #[trigger] blocks.list()[old_len + c],
                        spec_data_next(old_len, pm_g, nd_g, c),
                        spec_data_prev(old_len, pm_g, c),
                        chunks@[c]@,
                        l_spec,
                    ),
            decreases meta_nodes@.len() - m,
        {
            let ghost pre_bytes = w.bytes();
            let ghost pre_list = blocks.list();
            match write_node(&meta_nodes[m], l, w, blocks) {
                Ok(_) => {},
                Err(e) => {
                    return Err(e);
                },
            }
            proof {
                assert(w.bytes().take(pre_bytes.len() as int) =~= pre_bytes);
                assert forall|c: int| 0 <= c < num_data implies data_node_written(
                    w.bytes(),
                    #[trigger] blocks.list()[old_len + c],
                    spec_data_next(old_len, pm_g, nd_g, c),
                    spec_data_prev(old_len, pm_g, c),
                    chunks@[c]@,
                    l_spec,
                ) by {
                    let bk = pre_list[old_len + c];
                    assert(blocks.list()[old_len + c] == bk);
                    lemma_data_node_written_frame(
                        pre_bytes,
                        w.bytes(),
                        bk,
                        spec_data_next(old_len, pm_g, nd_g, c),
                        spec_data_prev(old_len, pm_g, c),
                        chunks@[c]@,
                        l_spec,
                    );
                }
                lemma_enc_entry_list_len(meta_nodes@[m as int].entries@);
                let bk_new = blocks.list()[old_len + num_data + m];
                assert(bk_new.offset == pre_bytes.len() && bk_new.len == l_spec);
                assert(w.bytes().subrange(bk_new.offset as int, bk_new.end()) =~= enc_node(
                    false,
                    meta_nodes@[m as int].next,
                    meta_nodes@[m as int].prev,
                    spec_meta_entries(old_len, entries@, n as int, m as int),
                    l_spec,
                ));
                assert forall|t: int| 0 <= t < m + 1 implies meta_node_written(
                    w.bytes(),
                    #[trigger] blocks.list()[old_len + num_data + t],
                    (if t == meta_nodes@.len() - 1 {
                        0u32
                    } else {
                        ((meta_first as int) + t + 1) as u32
                    }),
                    (if t == 0 {
                        0u32
                    } else {
                        ((meta_first as int) + t - 1) as u32
                    }),
                    spec_meta_entries(old_len, entries@, n as int, t),
                    l_spec,
                ) by {
                    if t < m {
                        let bk = pre_list[old_len + num_data + t];
                        assert(blocks.list()[old_len + num_data + t] == bk);
                        lemma_meta_node_written_frame(
                            pre_bytes,
                            w.bytes(),
                            bk,
                            (if t == meta_nodes@.len() - 1 {
                                0u32
                            } else {
                                ((meta_first as int) + t + 1) as u32
                            }),
                            (if t == 0 {
                                0u32
                            } else {
                                ((meta_first as int) + t - 1) as u32
                            }),
                            spec_meta_entries(old_len, entries@, n as int, t),
                            l_spec,
                        );
                    }
                }
            }
            m = m + 1;
        }
        root = meta_first;
        proof {
            assert(root as int == old_len + nd_g);
            assert(root as int == spec_tree_root(old_len, count as int, n as int));
            ng_g = meta_nodes@.len() as int;
            assert((ng_g - 1) * pm_g <= nd_g - 1);
            assert(ng_g * pm_g - (ng_g - 1) * pm_g == pm_g) by (nonlinear_arith);
            assert(nd_g - 1 - (ng_g - 1) * pm_g < pm_g);
            vstd::arithmetic::div_mod::lemma_fundamental_div_mod_converse(
                nd_g - 1,
                pm_g,
                ng_g - 1,
                nd_g - 1 - (ng_g - 1) * pm_g,
            );
            assert(spec_num_groups(count as int, n as int) == ng_g);
            assert(tree_meta_written(w.bytes(), blocks.list(), old_len, entries@, l_spec));
        }
    }
    // the descriptor block
    let ghost pre_bytes = w.bytes();
    let ghost pre_list = blocks.list();
    let start = w.position();
    let magic: [u8; 4] = [116, 114, 101, 101];
    w.write_bytes(magic.as_slice());
    w.write_u32(1);
    w.write_u32(root);
    w.write_u32(l as u32);
    w.write_u32(count as u32);
    w.write_u8(0);
    assert(w.bytes() =~= pre_bytes + enc_tree_desc(root, l as u32, count as u32));
    let i = match blocks.append(start, w.position()) {
        Ok(x) => x,
        Err(e) => {
            proof {
                assert(final(w).bytes().len() > u32::MAX || final(blocks).list().len()
                    == u32::MAX);
            }
            return Err(e);
        },
    };
    proof {
        assert(pre_list.len() <= old_len + 2 * (entries@.len() as int) + 2);
        assert(old_len + spec_num_data(count as int, spec_max_entries(l_spec)) <= pre_list.len());
        if count > n {
            assert(old_len + spec_num_data(count as int, spec_max_entries(l_spec))
                + spec_num_groups(count as int, spec_max_entries(l_spec)) <= pre_list.len());
        }
        assert(blocks.list() =~= pre_list.push(Block {
            offset: pre_bytes.len() as u32,
            len: 21u32,
        }));
        lemma_finish_tree(
            pre_bytes,
            pre_list,
            *w,
            *blocks,
            i,
            root,
            old_len,
            entries@,
            block_len as int,
            l_spec,
        );
        assert(tree_written(*old(blocks), *w, *blocks, i, entries@, block_len as int));
    }
    Ok(i)
}

/// How many positions of `s` are set.
pub open spec fn count_true(s: Seq<bool>) -> int
    decreases s.len(),
{
    if s.len() == 0 {
        0
    } else {
        count_true(s.drop_last()) + if s.last() {
            1int
        } else {
            0int
        }
    }
}

pub proof fn lemma_count_true_le(s: Seq<bool>)
    ensures
        0 <= count_true(s) <= s.len(),
    decreases s.len(),
{
    if s.len() > 0 {
        lemma_count_true_le(s.drop_last());
    }
}

/// Setting a clear position raises the count by one.
pub proof fn lemma_count_true_update(s: Seq<bool>, i: int)
    requires
        0 <= i < s.len(),
        !s[i],
    ensures
        count_true(s.update(i, true)) == count_true(s) + 1,
    decreases s.len(),
{
    let u = s.update(i, true);
    if i == s.len() - 1 {
        assert(u.drop_last() =~= s.drop_last());
    } else {
        assert(u.drop_last() =~= s.drop_last().update(i, true));
        lemma_count_true_update(s.drop_last(), i);
    }
}

/// The bytes of one block of the file.
pub open spec fn block_bytes(file: Seq<u8>, b: Block) -> Seq<u8> {
    file.subrange(b.offset as int, b.end())
}

/// The root is a single well-formed data node with no siblings.
pub open spec fn lone_data_node(file: Seq<u8>, list: Seq<Block>, root: u32) -> bool {
    &&& root < list.len()
    &&& list[root as int].end() <= file.len()
    &&& ({
        let nd = block_bytes(file, list[root as int]);
        &&& nd.len() >= 12
        &&& dec_u16(nd.subrange(0, 2)) != 0
        &&& dec_u32(nd.subrange(4, 8)) == 0
        &&& dec_u32(nd.subrange(8, 12)) == 0
        &&& 12 + 8 * (dec_u16(nd.subrange(2, 4)) as int) <= nd.len()
    })
}

/// The entry count of a tree whose descriptor at block `i` is valid and
/// whose root is a single data node without siblings; `None` otherwise.
pub open spec fn lone_tree_count(file: Seq<u8>, list: Seq<Block>, i: u32) -> Option<int> {
    if i < list.len() && list[i as int].end() <= file.len() {
        let d = block_bytes(file, list[i as int]);
        if d.len() >= 21 && d.subrange(0, 4) == tree_magic() && dec_u32(d.subrange(4, 8)) == 1 {
            let root = dec_u32(d.subrange(8, 12));
            if lone_data_node(file, list, root) {
                Some(dec_u16(block_bytes(file, list[root as int]).subrange(2, 4)) as int)
            } else {
                None
            }
        } else {
            None
        }
    } else {
        None
    }
}

/// Read a tree back from its descriptor block: entries in visit order and
/// the declared node block length.
///
/// The walk follows child, `next` and `prev` references breadth first and
/// keeps a visited set, so it terminates on every input, also on sibling
/// encodings that form cycles; a cycle is not an error.  When the root is
/// a single data node without siblings, the returned pairs are exactly
/// that node's entry list.
pub fn read_tree(i: u32, file: &[u8], blocks: &Blocks) -> (r: Result<(Vec<(u32, u32)>, u32), Error>)
    ensures
        lone_tree_count(file@, blocks.list(), i) is Some ==> r is Ok,
        match r {
            Ok(p) => i < blocks.list().len() && ({
                let d = block_bytes(file@, blocks.list()[i as int]);
                let root = dec_u32(d.subrange(8, 12));
                &&& blocks.list()[i as int].end() <= file@.len()
                &&& d.len() >= 21
                &&& d.subrange(0, 4) == tree_magic()
                &&& dec_u32(d.subrange(4, 8)) == 1
                &&& p.1 == dec_u32(d.subrange(12, 16))
                &&& (lone_data_node(file@, blocks.list(), root) ==> ({
                    let nd = block_bytes(file@, blocks.list()[root as int]);
                    &&& p.0@.len() == dec_u16(nd.subrange(2, 4))
                    &&& enc_list(p.0@, |e: (u32, u32)| enc_entry(e)) == nd.subrange(
                        12,
                        12 + 8 * (dec_u16(nd.subrange(2, 4)) as int),
                    )
                }))
                &&& (lone_tree_count(file@, blocks.list(), i) is Some ==> p.0@.len()
                    == lone_tree_count(file@, blocks.list(), i).unwrap())
            }),
            Err(e) => {
                &&& (e == Error::InvalidData ==> i < blocks.list().len() && ({
                    let d = block_bytes(file@, blocks.list()[i as int]);
                    blocks.list()[i as int].end() <= file@.len() && d.len() >= 4 && d.subrange(
                        0,
                        4,
                    ) != tree_magic()
                }))
                &&& (e == Error::UnsupportedVersion ==> i < blocks.list().len() && ({
                    let d = block_bytes(file@, blocks.list()[i as int]);
                    blocks.list()[i as int].end() <= file@.len() && d.len() >= 8 && dec_u32(
                        d.subrange(4, 8),
                    ) != 1
                }))
                &&& (e == Error::InvalidBlockIndex || e == Error::Truncated || e
                    == Error::InvalidData || e == Error::UnsupportedVersion)
            },
        },
{
    let data = blocks.slice(i, file)?;
    let mut pos: usize = 0;
    let magic = match read_exact(data, &mut pos, 4) {
        Ok(v) => v,
        Err(e) => {
            return Err(e);
        },
    };
    let tmagic: [u8; 4] = [116, 114, 101, 101];
    assert(tmagic@ =~= tree_magic());
    if !crate::named_blocks::bytes_eq(magic.as_slice(), tmagic.as_slice()) {
        return Err(Error::InvalidData);
    }
    let version = match read_u32(data, &mut pos) {
        Ok(v) => v,
        Err(e) => {
            return Err(e);
        },
    };
    proof {
        lemma_dec_enc_u32(version);
    }
    if version != 1 {
        return Err(Error::UnsupportedVersion);
    }
    let root = match read_u32(data, &mut pos) {
        Ok(v) => v,
        Err(e) => {
            return Err(e);
        },
    };
    let block_len_field = match read_u32(data, &mut pos) {
        Ok(v) => v,
        Err(e) => {
            return Err(e);
        },
    };
    let _num_entries = match read_u32(data, &mut pos) {
        Ok(v) => v,
        Err(e) => {
            return Err(e);
        },
    };
    let _x = match read_u8(data, &mut pos) {
        Ok(v) => v,
        Err(e) => {
            return Err(e);
        },
    };
    proof {
        lemma_dec_enc_u32(root);
        lemma_dec_enc_u32(block_len_field);
        assert(data@ =~= block_bytes(file@, blocks.list()[i as int]));
        assert(data@.subrange(0, 4) =~= tree_magic());
        assert(data@.subrange(4, 8) =~= enc_u32(version));
        assert(data@.subrange(8, 12) =~= enc_u32(root));
        assert(data@.subrange(12, 16) =~= enc_u32(block_len_field));
    }
    let ghost lone = lone_data_node(file@, blocks.list(), root);
    let nblocks = blocks.len();
    let mut visited: Vec<bool> = Vec::new();
    let mut t: usize = 0;
    while t < nblocks
        invariant
            t <= nblocks,
            visited@.len() == t,
            count_true(visited@) == 0,
            forall|j: int| 0 <= j < t ==> !(#[trigger] visited@[j]),
        decreases nblocks - t,
    {
        let ghost pre = visited@;
        visited.push(false);
        proof {
            assert(visited@.drop_last() =~= pre);
        }
        t = t + 1;
    }
    let mut queue: Vec<u32> = Vec::new();
    queue.push(root);
    let mut head: usize = 0;
    let mut entries: Vec<(u32, u32)> = Vec::new();
    proof {
        lemma_count_true_le(visited@);
    }
    while head < queue.len()
        invariant
            head <= queue@.len(),
            nblocks == blocks.list().len(),
            visited@.len() == nblocks,
            0 <= count_true(visited@) <= nblocks,
            lone == lone_data_node(file@, blocks.list(), root),
            lone_tree_count(file@, blocks.list(), i) is Some ==> lone,
            queue@.len() >= 1,
            queue@[0] == root,
            lone ==> queue@.len() == 1,
            lone ==> (head == 0 ==> entries@.len() == 0 && !visited@[root as int]),
            lone ==> (head >= 1 ==> ({
                let nd = block_bytes(file@, blocks.list()[root as int]);
                &&& entries@.len() == dec_u16(nd.subrange(2, 4))
                &&& enc_list(entries@, |e: (u32, u32)| enc_entry(e)) == nd.subrange(
                    12,
                    12 + 8 * (dec_u16(nd.subrange(2, 4)) as int),
                )
            })),
        decreases nblocks - count_true(visited@), queue@.len() - head,
    {
        let b = queue[head];
        head = head + 1;
        if (b as usize) >= nblocks {
            proof {
                if lone_tree_count(file@, blocks.list(), i) is Some {
                    assert(b == root);
                    assert(false);
                }
            }
            return Err(Error::InvalidBlockIndex);
        }
        if visited[b as usize] {
            continue;
        }
        let ghost pre_visited = visited@;
        visited.set(b as usize, true);
        proof {
            lemma_count_true_update(pre_visited, b as int);
            lemma_count_true_le(visited@);
        }
        let node = match read_node(b, file, blocks) {
            Ok(n) => n,
            Err(e) => {
                proof {
                    if lone_tree_count(file@, blocks.list(), i) is Some {
                        assert(b == root);
                        assert(block_bytes(file@, blocks.list()[root as int]) == file@.subrange(
                            blocks.list()[root as int].offset as int,
                            blocks.list()[root as int].end(),
                        ));
                        assert(false);
                    }
                }
                return Err(e);
            },
        };
        if node.is_data {
            let ghost pre_entries = entries@;
            let mut k: usize = 0;
            while k < node.entries.len()
                invariant
                    k <= node.entries@.len(),
                    entries@ == pre_entries + node.entries@.take(k as int),
                decreases node.entries@.len() - k,
            {
                entries.push(node.entries[k]);
                k = k + 1;
                assert(entries@ =~= pre_entries + node.entries@.take(k as int));
            }
            assert(node.entries@.take(node.entries@.len() as int) =~= node.entries@);
            proof {
                if lone && b == root {
                    assert(pre_entries =~= Seq::<(u32, u32)>::empty());
                    assert(entries@ =~= node.entries@);
                    lemma_dec_enc_u16(node.entries@.len() as u16);
                }
            }
        } else {
            proof {
                if lone {
                    assert(block_bytes(file@, blocks.list()[root as int]) == file@.subrange(
                        blocks.list()[root as int].offset as int,
                        blocks.list()[root as int].end(),
                    ));
                    assert(node.is_data);
                    assert(false);
                }
            }
            let mut k: usize = 0;
            while k < node.entries.len()
                invariant
                    k <= node.entries@.len(),
                    !lone,
                    head <= queue@.len(),
                    queue@.len() >= 1,
                    queue@[0] == root,
                decreases node.entries@.len() - k,
            {
                queue.push(node.entries[k].0);
                k = k + 1;
            }
        }
        if node.next != 0 {
            queue.push(node.next);
        }
        if node.prev != 0 {
            queue.push(node.prev);
        }
    }
    Ok((entries, block_len_field))
}

} // verus!
