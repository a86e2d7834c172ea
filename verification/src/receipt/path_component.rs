//! The path-component vector: the filesystem graph as a flat,
//! sequence-numbered array with parent links.

use vstd::prelude::*;

verus! {

use crate::blocks::Block;
use crate::blocks::Blocks;
use crate::blocks::block_holds;
use crate::blocks::lemma_block_holds_frame;
use crate::io::enc_u32;
use crate::io::enc_u8;
use crate::receipt::metadata::enc_metadata;
use crate::tree::tree_written_at;
use crate::error::Error;
use crate::io::ByteWriter;
use crate::io::read_u32;
use crate::receipt::context::Context;
use crate::receipt::metadata::Metadata;
use crate::receipt::metadata::read_metadata;
use crate::tree::count_true;
use crate::tree::lone_tree_count;
use crate::tree::lemma_count_true_le;
use crate::tree::lemma_count_true_update;
use crate::tree::read_tree;
use crate::tree::write_tree;

/// A single named edge of the filesystem graph.
///
/// `seq_no` starts at one and follows walk order; `parent` is the
/// sequence number of the containing directory, zero for a root.
#[derive(Debug)]
pub struct PathComponent {
    pub seq_no: u32,
    pub parent: u32,
    pub metadata: Metadata,
    pub name: Vec<u8>,
}

/// Sequence numbers are dense: position `i` carries number `i + 1`.
pub open spec fn seq_nos_dense(s: Seq<PathComponent>) -> bool {
    forall|i: int| 0 <= i < s.len() ==> (#[trigger] s[i]).seq_no == i + 1
}

/// Every parent appears earlier in walk order than its child.
pub open spec fn parents_first(s: Seq<PathComponent>) -> bool {
    forall|i: int| 0 <= i < s.len() ==> (#[trigger] s[i]).parent <= i
}

/// A vector a directory walk produces.
pub open spec fn components_wf(s: Seq<PathComponent>) -> bool {
    seq_nos_dense(s) && parents_first(s)
}

/// Every component's parent link resolves: when `parent` is not zero,
/// some other component carries it as its sequence number.
pub proof fn lemma_parent_exists(s: Seq<PathComponent>)
    requires
        components_wf(s),
    ensures
        forall|i: int|
            0 <= i < s.len() && (#[trigger] s[i]).parent != 0 ==> exists|j: int|
                0 <= j < s.len() && j != i && (#[trigger] s[j]).seq_no == s[i].parent,
{
    assert forall|i: int| 0 <= i < s.len() && (#[trigger] s[i]).parent != 0 implies exists|j: int|
        0 <= j < s.len() && j != i && (#[trigger] s[j]).seq_no == s[i].parent by {
        let j = s[i].parent - 1;
        assert(0 <= j < s.len());
        assert(s[j].seq_no == s[i].parent);
        assert(j != i);
    }
}

/// The name components of the full path of `seq_no`, root first.
pub open spec fn spec_path(s: Seq<PathComponent>, seq_no: int) -> Seq<Seq<u8>>
    decreases seq_no,
{
    if seq_no <= 0 || seq_no > s.len() {
        Seq::empty()
    } else {
        let c = s[seq_no - 1];
        if c.parent < seq_no {
            spec_path(s, c.parent as int).push(c.name@)
        } else {
            Seq::empty()
        }
    }
}

/// Path components joined with slashes.
pub open spec fn spec_join(parts: Seq<Seq<u8>>) -> Seq<u8>
    decreases parts.len(),
{
    if parts.len() == 0 {
        Seq::empty()
    } else if parts.len() == 1 {
        parts[0]
    } else {
        spec_join(parts.drop_last()) + seq![47u8] + parts.last()
    }
}

/// A copy of a byte vector.
fn clone_bytes(src: &Vec<u8>) -> (r: Vec<u8>)
    ensures
        r@ == src@,
{
    let mut r: Vec<u8> = Vec::new();
    let mut i: usize = 0;
    while i < src.len()
        invariant
            i <= src@.len(),
            r@ == src@.take(i as int),
        decreases src@.len() - i,
    {
        r.push(src[i]);
        i = i + 1;
        assert(r@ =~= src@.take(i as int));
    }
    assert(src@.take(src@.len() as int) =~= src@);
    r
}

/// Join path parts with slashes.
fn join_parts(parts: &Vec<Vec<u8>>) -> (r: Vec<u8>)
    ensures
        r@ == spec_join(parts@.map_values(|p: Vec<u8>| p@)),
{
    let mut r: Vec<u8> = Vec::new();
    let mut i: usize = 0;
    while i < parts.len()
        invariant
            i <= parts@.len(),
            r@ == spec_join(parts@.map_values(|p: Vec<u8>| p@).take(i as int)),
        decreases parts@.len() - i,
    {
        let ghost pre = r@;
        if i > 0 {
            r.push(47);
        }
        let part = &parts[i];
        let mut k: usize = 0;
        while k < part.len()
            invariant
                k <= part@.len(),
                i > 0 ==> r@ == pre + seq![47u8] + part@.take(k as int),
                i == 0 ==> r@ == pre + part@.take(k as int),
            decreases part@.len() - k,
        {
            r.push(part[k]);
            k = k + 1;
            proof {
                if i > 0 {
                    assert(r@ =~= pre + seq![47u8] + part@.take(k as int));
                } else {
                    assert(r@ =~= pre + part@.take(k as int));
                }
            }
        }
        proof {
            let m = parts@.map_values(|p: Vec<u8>| p@);
            assert(part@.take(part@.len() as int) =~= part@);
            assert(m.take(i + 1).drop_last() =~= m.take(i as int));
            assert(m.take(i + 1).last() == m[i as int]);
            assert(m[i as int] == part@);
            if i == 0 {
                assert(spec_join(m.take(0)) == Seq::<u8>::empty());
                assert(pre + part@ =~= part@);
                assert(spec_join(m.take(1)) == m.take(1)[0]);
                assert(m.take(1)[0] == part@);
            } else {
                assert(spec_join(m.take(i + 1)) == spec_join(m.take(i as int)) + seq![47u8]
                    + part@);
            }
        }
        i = i + 1;
    }
    assert(parts@.map_values(|p: Vec<u8>| p@).take(parts@.len() as int) =~= parts@.map_values(
        |p: Vec<u8>| p@,
    ));
    r
}

/// A vector of path components, ordered by sequence number.
#[derive(Debug)]
pub struct PathComponentVec {
    components: Vec<PathComponent>,
}

impl PathComponentVec {
    pub closed spec fn components(&self) -> Seq<PathComponent> {
        self.components@
    }

    pub open spec fn wf(&self) -> bool {
        self.components().len() <= u32::MAX
    }

    /// Create a new vector from the provided path components.
    pub fn new(components: Vec<PathComponent>) -> (r: Self)
        ensures
            r.components() == components@,
    {
        PathComponentVec { components }
    }

    pub fn len(&self) -> (r: usize)
        ensures
            r == self.components().len(),
    {
        self.components.len()
    }

    pub fn component(&self, i: usize) -> (r: &PathComponent)
        requires
            i < self.components().len(),
        ensures
            *r == self.components()[i as int],
    {
        &self.components[i]
    }

    /// The full path of the component with the given sequence number,
    /// as name parts, root first.
    ///
    /// The walk follows parent links and keeps a visited set, so it
    /// terminates on every vector; a chain that revisits a component is
    /// the loop error.  On a vector a directory walk produced the chain
    /// always ends at a root and the parts spell the full path.
    pub fn path(&self, seq_no: u32) -> (r: Result<Vec<Vec<u8>>, Error>)
        ensures
            components_wf(self.components()) && 1 <= seq_no <= self.components().len() ==> r
                is Ok,
            match r {
                Ok(parts) => components_wf(self.components()) && 1 <= seq_no
                    <= self.components().len() ==> parts@.map_values(|p: Vec<u8>| p@) == spec_path(
                    self.components(),
                    seq_no as int,
                ),
                Err(e) => e == Error::PathLoop,
            },
    {
        let n = self.components.len();
        let mut visited: Vec<bool> = Vec::new();
        let mut t: usize = 0;
        while t < n
            invariant
                t <= n,
                visited@.len() == t,
                count_true(visited@) == 0,
                forall|j: int| 0 <= j < t ==> !(#[trigger] visited@[j]),
            decreases n - t,
        {
            let ghost pre = visited@;
            visited.push(false);
            proof {
                assert(visited@.drop_last() =~= pre);
            }
            t = t + 1;
        }
        let mut rev: Vec<Vec<u8>> = Vec::new();
        let mut cur = seq_no;
        let ghost s = self.components();
        let ghost start = seq_no as int;
        let ghost good = components_wf(s) && 1 <= start <= s.len();
        proof {
            lemma_count_true_le(visited@);
            assert(rev@.map_values(|p: Vec<u8>| p@).reverse() =~= Seq::<Seq<u8>>::empty());
            assert(spec_path(s, start) + Seq::<Seq<u8>>::empty() =~= spec_path(s, start));
        }
        loop
            invariant
                n == s.len(),
                s == self.components(),
                visited@.len() == n,
                0 <= count_true(visited@) <= n,
                start == seq_no as int,
                good == (components_wf(s) && 1 <= start <= s.len()),
                good ==> cur <= s.len(),
                good ==> (forall|j: int|
                    0 <= j < visited@.len() && #[trigger] visited@[j] ==> j >= cur),
                good ==> spec_path(s, start) == spec_path(s, cur as int) + rev@.map_values(
                    |p: Vec<u8>| p@,
                ).reverse(),
            ensures
                good ==> cur == 0,
            decreases n - count_true(visited@),
        {
            if cur == 0 {
                break ;
            }
            let idx = (cur - 1) as usize;
            if idx >= n {
                proof {
                    if good {
                        assert(false);
                    }
                }
                break ;
            }
            if visited[idx] {
                proof {
                    if good {
                        assert(idx < cur);
                        assert(false);
                    }
                }
                return Err(Error::PathLoop);
            }
            let ghost pre_visited = visited@;
            visited.set(idx, true);
            proof {
                lemma_count_true_update(pre_visited, idx as int);
                lemma_count_true_le(visited@);
            }
            let c = &self.components[idx];
            let ghost pre_rev = rev@.map_values(|p: Vec<u8>| p@);
            rev.push(clone_bytes(&c.name));
            let ghost post_rev = rev@.map_values(|p: Vec<u8>| p@);
            proof {
                assert(post_rev =~= pre_rev.push(c.name@));
                if good {
                    assert(s[cur - 1].parent <= cur - 1);
                    assert(spec_path(s, cur as int) == spec_path(s, c.parent as int).push(
                        c.name@,
                    ));
                    assert(post_rev.reverse() =~= seq![c.name@] + pre_rev.reverse());
                    assert(spec_path(s, c.parent as int).push(c.name@) + pre_rev.reverse()
                        =~= spec_path(s, c.parent as int) + (seq![c.name@] + pre_rev.reverse()));
                }
            }
            cur = c.parent;
        }
        // the parts were collected leaf first
        let mut parts: Vec<Vec<u8>> = Vec::new();
        let mut k = rev.len();
        while k > 0
            invariant
                k <= rev@.len(),
                parts@.map_values(|p: Vec<u8>| p@) == rev@.map_values(
                    |p: Vec<u8>| p@,
                ).subrange(k as int, rev@.len() as int).reverse(),
            decreases k,
        {
            k = k - 1;
            let ghost pre = parts@.map_values(|p: Vec<u8>| p@);
            parts.push(clone_bytes(&rev[k]));
            proof {
                let m = rev@.map_values(|p: Vec<u8>| p@);
                assert(parts@.map_values(|p: Vec<u8>| p@) =~= pre.push(m[k as int]));
                assert(m.subrange(k as int, m.len() as int).reverse() =~= m.subrange(
                    k + 1,
                    m.len() as int,
                ).reverse().push(m[k as int]));
            }
        }
        proof {
            let m = rev@.map_values(|p: Vec<u8>| p@);
            assert(m.subrange(0, m.len() as int) =~= m);
            if good {
                assert(spec_path(s, 0) == Seq::<Seq<u8>>::empty());
                assert(Seq::<Seq<u8>>::empty() + m.reverse() =~= m.reverse());
            }
        }
        Ok(parts)
    }

    /// Transform into a list of `(full path, metadata)` pairs, in the
    /// vector's order; paths join their parts with slashes.
    pub fn to_paths(&self) -> (r: Result<Vec<(Vec<u8>, Metadata)>, Error>)
        ensures
            components_wf(self.components()) ==> r is Ok,
            match r {
                Ok(list) => list@.len() == self.components().len() && (components_wf(
                    self.components(),
                ) ==> forall|i: int|
                    0 <= i < list@.len() ==> (#[trigger] list@[i]).0@ == spec_join(
                        spec_path(self.components(), i + 1),
                    ) && list@[i].1@ == self.components()[i].metadata@),
                Err(e) => e == Error::PathLoop,
            },
    {
        let mut list: Vec<(Vec<u8>, Metadata)> = Vec::new();
        let mut i: usize = 0;
        let ghost s = self.components();
        while i < self.components.len()
            invariant
                i <= s.len(),
                s == self.components(),
                list@.len() == i,
                components_wf(s) ==> forall|j: int|
                    0 <= j < i ==> (#[trigger] list@[j]).0@ == spec_join(spec_path(s, j + 1))
                        && list@[j].1@ == s[j].metadata@,
            decreases s.len() - i,
        {
            let c = &self.components[i];
            let parts = match self.path(c.seq_no) {
                Ok(p) => p,
                Err(e) => {
                    proof {
                        if components_wf(s) {
                            assert(s[i as int].seq_no == i + 1);
                            assert(false);
                        }
                    }
                    return Err(e);
                },
            };
            let joined = join_parts(&parts);
            let meta = c.metadata.duplicate();
            proof {
                if components_wf(s) {
                    assert(s[i as int].seq_no == i + 1);
                    assert(1 <= c.seq_no <= s.len());
                }
            }
            list.push((joined, meta));
            i = i + 1;
        }
        Ok(list)
    }
}

/// Components ordered by sequence number.
pub open spec fn sorted_by_seq(s: Seq<PathComponent>) -> bool {
    forall|i: int, j: int|
        0 <= i < j < s.len() ==> (#[trigger] s[i]).seq_no <= (#[trigger] s[j]).seq_no
}

/// Order components by their sequence numbers.
fn sort_components(v: Vec<PathComponent>) -> (r: Vec<PathComponent>)
    ensures
        r@.len() == v@.len(),
        sorted_by_seq(r@),
{
    let mut rest = v;
    let mut out: Vec<PathComponent> = Vec::new();
    let ghost total = rest@.len();
    while rest.len() > 0
        invariant
            out@.len() + rest@.len() == total,
            sorted_by_seq(out@),
        decreases rest@.len(),
    {
        let c = rest.remove(0);
        let mut p: usize = 0;
        while p < out.len()
            invariant
                p <= out@.len(),
                sorted_by_seq(out@),
                forall|k: int| 0 <= k < p ==> (#[trigger] out@[k]).seq_no <= c.seq_no,
            ensures
                p <= out@.len(),
                forall|k: int| 0 <= k < p ==> (#[trigger] out@[k]).seq_no <= c.seq_no,
                p == out@.len() || out@[p as int].seq_no > c.seq_no,
            decreases out@.len() - p,
        {
            if out[p].seq_no > c.seq_no {
                break ;
            }
            p = p + 1;
        }
        proof {
            assert(forall|k: int| 0 <= k < p ==> (#[trigger] out@[k]).seq_no <= c.seq_no);
        }
        let ghost pre = out@;
        let ghost pos = p as int;
        let ghost cs = c.seq_no;
        if p < out.len() {
            assert(out@[p as int].seq_no > c.seq_no);
        }
        out.insert(p, c);
        proof {
            assert forall|i: int, j: int|
                0 <= i < j < out@.len() implies (#[trigger] out@[i]).seq_no
                <= (#[trigger] out@[j]).seq_no by {
                if i < pos && j < pos {
                } else if i == pos && j > pos {
                    assert(out@[j] == pre[j - 1]);
                    assert(pos < pre.len() + 1);
                    assert(pre[pos].seq_no > cs || j - 1 >= pos);
                    if j - 1 == pos {
                        assert(pre[pos].seq_no > cs);
                    } else {
                        assert(pre[pos].seq_no <= pre[j - 1].seq_no || pre[pos].seq_no > cs);
                    }
                } else if j == pos {
                    assert(out@[i] == pre[i]);
                } else if i < pos && j > pos {
                    assert(out@[i] == pre[i] && out@[j] == pre[j - 1]);
                } else if i > pos && j > pos {
                    assert(out@[i] == pre[i - 1] && out@[j] == pre[j - 1]);
                }
            }
        }
    }
    out
}

/// What writing components `i..` adds to the context's size table when
/// the block store held `base` blocks: for every component whose true
/// size passes the 32-bit range, the index of its freshly written
/// metadata block — the first of its three blocks — paired with that
/// size, in walk order.
pub open spec fn spec_size_entries(base: int, s: Seq<PathComponent>, i: int) -> Seq<(u32, u64)>
    decreases s.len() - i,
{
    if i < 0 || i >= s.len() {
        Seq::empty()
    } else {
        let rest = spec_size_entries(base, s, i + 1);
        if s[i].metadata@.size() > u32::MAX {
            seq![(((base + 3 * i) as u32), s[i].metadata@.size())] + rest
        } else {
            rest
        }
    }
}

/// The per-component blocks written so far stay in place when the
/// stream is extended and the store only grows.
proof fn lemma_frame_component_blocks(
    b1: Seq<u8>,
    b2: Seq<u8>,
    l1: Seq<Block>,
    l2: Seq<Block>,
    base: int,
    s: Seq<PathComponent>,
    upto: int,
)
    requires
        b1.len() <= b2.len(),
        b2.take(b1.len() as int) == b1,
        forall|k: int|
            0 <= k < upto ==> #[trigger] l2[base + 3 * k] == l1[base + 3 * k] && l2[base + 3 * k
                + 1] == l1[base + 3 * k + 1] && l2[base + 3 * k + 2] == l1[base + 3 * k + 2],
        forall|k: int|
            0 <= k < upto ==> ({
                let c = #[trigger] s[k];
                &&& block_holds(b1, l1[base + 3 * k], enc_metadata(c.metadata@))
                &&& block_holds(
                    b1,
                    l1[base + 3 * k + 1],
                    enc_u32(c.seq_no) + enc_u32(((base + 3 * k) as u32)),
                )
                &&& block_holds(b1, l1[base + 3 * k + 2], enc_u32(c.parent) + c.name@ + enc_u8(0))
            }),
    ensures
        forall|k: int|
            0 <= k < upto ==> ({
                let c = #[trigger] s[k];
                &&& block_holds(b2, l2[base + 3 * k], enc_metadata(c.metadata@))
                &&& block_holds(
                    b2,
                    l2[base + 3 * k + 1],
                    enc_u32(c.seq_no) + enc_u32(((base + 3 * k) as u32)),
                )
                &&& block_holds(b2, l2[base + 3 * k + 2], enc_u32(c.parent) + c.name@ + enc_u8(0))
            }),
{
    assert forall|k: int| 0 <= k < upto implies ({
        let c = #[trigger] s[k];
        &&& block_holds(b2, l2[base + 3 * k], enc_metadata(c.metadata@))
        &&& block_holds(
            b2,
            l2[base + 3 * k + 1],
            enc_u32(c.seq_no) + enc_u32(((base + 3 * k) as u32)),
        )
        &&& block_holds(b2, l2[base + 3 * k + 2], enc_u32(c.parent) + c.name@ + enc_u8(0))
    }) by {
        lemma_block_holds_frame(b1, b2, l1[base + 3 * k], enc_metadata(s[k].metadata@));
        lemma_block_holds_frame(
            b1,
            b2,
            l1[base + 3 * k + 1],
            enc_u32(s[k].seq_no) + enc_u32(((base + 3 * k) as u32)),
        );
        lemma_block_holds_frame(
            b1,
            b2,
            l1[base + 3 * k + 2],
            enc_u32(s[k].parent) + s[k].name@ + enc_u8(0),
        );
    }
}

impl PathComponentVec {
    /// Write the vector as the paths tree: per component a metadata
    /// block, a key block `(seq_no, metadata block)` and a value block
    /// `(parent, name NUL)`.  The context's size table gains exactly the
    /// oversized components' true sizes, in order, each against its
    /// freshly written metadata block; the hard-link table records each
    /// component's name against its key block.
    #[verifier::rlimit(100)]
    #[verifier::spinoff_prover]
    pub fn write_block(&self, w: &mut ByteWriter, blocks: &mut Blocks, ctx: &mut Context) -> (r:
        Result<u32, Error>)
        requires
            old(w).wf(),
            old(w).cursor() == old(w).bytes().len(),
            old(blocks).wf(),
            old(blocks).list().len() >= 1,
            old(ctx).file_sizes.wf(),
            old(ctx).hard_links.wf(),
            self.wf(),
        ensures
            final(w).wf(),
            final(w).cursor() == final(w).bytes().len(),
            old(w).bytes().len() <= final(w).bytes().len(),
            final(blocks).wf(),
            final(blocks).free_list() == old(blocks).free_list(),
            final(ctx).file_sizes.wf(),
            final(ctx).hard_links.wf(),
            final(ctx).file_sizes.entries().len() <= old(ctx).file_sizes.entries().len()
                + self.components().len(),
            final(ctx).hard_links.entries().len() <= old(ctx).hard_links.entries().len()
                + self.components().len(),
            final(blocks).list().len() <= old(blocks).list().len() + 5 * self.components().len()
                + 6,
            match r {
                Ok(i) => {
                    let base = old(blocks).list().len() as int;
                    &&& final(blocks).list().len() > old(blocks).list().len()
                    &&& final(blocks).list().len() <= old(blocks).list().len() + 5
                        * self.components().len() + 3
                    &&& i == final(blocks).list().len() - 1
                    &&& (forall|k: int|
                        0 <= k < self.components().len() ==> ({
                            let c = #[trigger] self.components()[k];
                            &&& block_holds(
                                final(w).bytes(),
                                final(blocks).list()[base + 3 * k],
                                enc_metadata(c.metadata@),
                            )
                            &&& block_holds(
                                final(w).bytes(),
                                final(blocks).list()[base + 3 * k + 1],
                                enc_u32(c.seq_no) + enc_u32(((base + 3 * k) as u32)),
                            )
                            &&& block_holds(
                                final(w).bytes(),
                                final(blocks).list()[base + 3 * k + 2],
                                enc_u32(c.parent) + c.name@ + enc_u8(0),
                            )
                        }))
                    &&& tree_written_at(
                        base + 3 * self.components().len(),
                        *final(w),
                        *final(blocks),
                        i,
                        Seq::new(
                            self.components().len(),
                            |k: int| (((base + 3 * k + 1) as u32), ((base + 3 * k + 2) as u32)),
                        ),
                        4096,
                    )
                    &&& final(ctx).file_sizes.entries() == old(ctx).file_sizes.entries()
                        + spec_size_entries(
                        old(blocks).list().len() as int,
                        self.components(),
                        0,
                    )
                    &&& (old(ctx).hard_links.entries().len() == 0 ==> final(
                        ctx
                    ).hard_links.entries().len() == self.components().len() && forall|k: int|
                        0 <= k < self.components().len() ==> (#[trigger] final(
                            ctx
                        ).hard_links.entries()[k]).1 == seq![self.components()[k].name@])
                },
                Err(e) => {
                    ||| (e == Error::InvalidData && exists|j: int|
                        0 <= j < self.components().len() && !(#[trigger] self.components()[j]).metadata@.wf())
                    ||| (e == Error::TooManyEntries && (final(ctx).file_sizes.entries().len()
                        >= u32::MAX || final(ctx).hard_links.entries().len() >= u32::MAX))
                    ||| (e == Error::FileTooLarge && (final(w).bytes().len() > u32::MAX || 2
                        * final(blocks).list().len() + 8192 > u32::MAX))
                },
            },
    {
        let ghost s = self.components();
        let ghost base = old(blocks).list().len() as int;
        let ghost old_sizes = old(ctx).file_sizes.entries();
        let ghost hl_fresh = old(ctx).hard_links.entries().len() == 0;
        let mut pairs: Vec<(u32, u32)> = Vec::new();
        let mut i: usize = 0;
        proof {
            assert(ctx.file_sizes.entries().skip(old_sizes.len() as int) =~= Seq::<
                (u32, u64),
            >::empty());
            assert(Seq::<(u32, u64)>::empty() + spec_size_entries(base, s, 0) =~= spec_size_entries(
                base,
                s,
                0,
            ));
        }
        while i < self.components.len()
            invariant
                i <= s.len(),
                s == self.components(),
                s.len() <= u32::MAX,
                pairs@.len() == i,
                w.wf(),
                w.cursor() == w.bytes().len(),
                old(w).bytes().len() <= w.bytes().len(),
                blocks.wf(),
                blocks.free_list() == old(blocks).free_list(),
                blocks.list().len() >= old(blocks).list().len(),
                blocks.list().len() == old(blocks).list().len() + 3 * i,
                blocks.list().len() >= 1,
                ctx.file_sizes.wf(),
                ctx.hard_links.wf(),
                old_sizes == old(ctx).file_sizes.entries(),
                base == old(blocks).list().len() as int,
                ctx.file_sizes.entries().take(old_sizes.len() as int) == old_sizes,
                ctx.file_sizes.entries().len() >= old_sizes.len(),
                spec_size_entries(base, s, 0) == ctx.file_sizes.entries().skip(
                    old_sizes.len() as int,
                ) + spec_size_entries(base, s, i as int),
                ctx.file_sizes.entries().len() <= old(ctx).file_sizes.entries().len() + i,
                ctx.hard_links.entries().len() <= old(ctx).hard_links.entries().len() + i,
                hl_fresh == (old(ctx).hard_links.entries().len() == 0),
                forall|k: int|
                    0 <= k < i ==> #[trigger] pairs@[k] == (
                        ((base + 3 * k + 1) as u32),
                        ((base + 3 * k + 2) as u32),
                    ),
                forall|k: int|
                    0 <= k < i ==> ({
                        let c = #[trigger] s[k];
                        &&& block_holds(
                            w.bytes(),
                            blocks.list()[base + 3 * k],
                            enc_metadata(c.metadata@),
                        )
                        &&& block_holds(
                            w.bytes(),
                            blocks.list()[base + 3 * k + 1],
                            enc_u32(c.seq_no) + enc_u32(((base + 3 * k) as u32)),
                        )
                        &&& block_holds(
                            w.bytes(),
                            blocks.list()[base + 3 * k + 2],
                            enc_u32(c.parent) + c.name@ + enc_u8(0),
                        )
                    }),
                hl_fresh ==> ctx.hard_links.entries().len() == i && (forall|k: int|
                    0 <= k < i ==> (#[trigger] ctx.hard_links.entries()[k]).1 == seq![
                        s[k].name@,
                    ]) && (forall|t: int|
                    0 <= t < i ==> (#[trigger] ctx.hard_links.entries()[t]).0
                        < blocks.list().len()),
            decreases s.len() - i,
        {
            let ghost pre_w = w.bytes();
            let ghost pre_list = blocks.list();
            let c = &self.components[i];
            if !c.metadata.check_wf() {
                proof {
                    assert(!s[i as int].metadata@.wf());
                }
                return Err(Error::InvalidData);
            }
            let start = w.position();
            c.metadata.write_be(w);
            let meta_idx = match blocks.append(start, w.position()) {
                Ok(x) => x,
                Err(e) => {
                    return Err(e);
                },
            };
            let ghost pre_sizes = ctx.file_sizes.entries();
            if c.metadata.size() > u32::MAX as u64 {
                if ctx.file_sizes.len() >= u32::MAX as usize {
                    return Err(Error::TooManyEntries);
                }
                ctx.file_sizes.insert(meta_idx, c.metadata.size());
            }
            proof {
                if s[i as int].metadata@.size() > u32::MAX {
                    assert(meta_idx as int == base + 3 * i);
                    assert(ctx.file_sizes.entries() =~= pre_sizes.push(
                        (meta_idx, s[i as int].metadata@.size()),
                    ));
                    assert(ctx.file_sizes.entries().take(old_sizes.len() as int) =~= old_sizes);
                    assert(spec_size_entries(base, s, i as int) == seq![
                        (((base + 3 * i) as u32), s[i as int].metadata@.size()),
                    ] + spec_size_entries(base, s, i + 1));
                    assert(ctx.file_sizes.entries().skip(old_sizes.len() as int) =~= pre_sizes.skip(
                        old_sizes.len() as int,
                    ).push((meta_idx, s[i as int].metadata@.size())));
                    assert(pre_sizes.skip(old_sizes.len() as int) + (seq![
                        (((base + 3 * i) as u32), s[i as int].metadata@.size()),
                    ] + spec_size_entries(base, s, i + 1)) =~= ctx.file_sizes.entries().skip(
                        old_sizes.len() as int,
                    ) + spec_size_entries(base, s, i + 1));
                } else {
                    assert(spec_size_entries(base, s, i as int) == spec_size_entries(
                        base,
                        s,
                        i + 1,
                    ));
                }
            }
            let kstart = w.position();
            w.write_u32(c.seq_no);
            w.write_u32(meta_idx);
            let key = match blocks.append(kstart, w.position()) {
                Ok(x) => x,
                Err(e) => {
                    return Err(e);
                },
            };
            ctx.current_key_block = Some(key);
            let vstart = w.position();
            w.write_u32(c.parent);
            w.write_bytes(c.name.as_slice());
            w.write_u8(0);
            let value = match blocks.append(vstart, w.position()) {
                Ok(x) => x,
                Err(e) => {
                    return Err(e);
                },
            };
            proof {
                assert(w.bytes().take(pre_w.len() as int) =~= pre_w);
                assert(w.bytes().subrange(start as int, start + enc_metadata(
                    s[i as int].metadata@,
                ).len() as int) =~= enc_metadata(s[i as int].metadata@));
                assert(block_holds(
                    w.bytes(),
                    blocks.list()[base + 3 * i],
                    enc_metadata(s[i as int].metadata@),
                ));
                assert(w.bytes().subrange(kstart as int, kstart + 8) =~= enc_u32(
                    s[i as int].seq_no,
                ) + enc_u32(((base + 3 * i) as u32)));
                assert(block_holds(
                    w.bytes(),
                    blocks.list()[base + 3 * i + 1],
                    enc_u32(s[i as int].seq_no) + enc_u32(((base + 3 * i) as u32)),
                ));
                assert(w.bytes().subrange(
                    vstart as int,
                    vstart + 4 + (s[i as int].name@.len() as int) + 1,
                ) =~= enc_u32(s[i as int].parent) + s[i as int].name@ + enc_u8(0));
                assert(block_holds(
                    w.bytes(),
                    blocks.list()[base + 3 * i + 2],
                    enc_u32(s[i as int].parent) + s[i as int].name@ + enc_u8(0),
                ));
                assert(forall|k: int|
                    0 <= k < i ==> #[trigger] blocks.list()[base + 3 * k] == pre_list[base + 3 * k]
                        && blocks.list()[base + 3 * k + 1] == pre_list[base + 3 * k + 1]
                        && blocks.list()[base + 3 * k + 2] == pre_list[base + 3 * k + 2]);
                lemma_frame_component_blocks(
                    pre_w,
                    w.bytes(),
                    pre_list,
                    blocks.list(),
                    base,
                    s,
                    i as int,
                );
                assert(pairs@.push((key, value))[i as int] == (
                    ((base + 3 * i + 1) as u32),
                    ((base + 3 * i + 2) as u32),
                ));
            }
            if ctx.hard_links.len() >= u32::MAX as usize {
                return Err(Error::TooManyEntries);
            }
            let ghost pre_hl = ctx.hard_links.entries();
            proof {
                if hl_fresh {
                    assert(forall|t: int|
                        0 <= t < pre_hl.len() ==> (#[trigger] pre_hl[t]).0 != key);
                    crate::receipt::hard_links::lemma_links_index_none(pre_hl, key);
                }
            }
            ctx.hard_links.add(key, clone_bytes(&c.name));
            proof {
                crate::receipt::hard_links::lemma_links_index_range(pre_hl, key);
                match crate::receipt::hard_links::spec_links_index(pre_hl, key) {
                    Some(j) => {
                        assert(ctx.hard_links.entries().len() == pre_hl.len());
                    },
                    None => {
                        assert(ctx.hard_links.entries().len() == pre_hl.len() + 1);
                    },
                }
            }
            ctx.current_key_block = None;
            pairs.push((key, value));
            i = i + 1;
        }
        proof {
            assert(spec_size_entries(base, s, s.len() as int) == Seq::<(u32, u64)>::empty());
            assert(ctx.file_sizes.entries().skip(old_sizes.len() as int) + Seq::<
                (u32, u64),
            >::empty() =~= ctx.file_sizes.entries().skip(old_sizes.len() as int));
            assert(ctx.file_sizes.entries() =~= old_sizes + ctx.file_sizes.entries().skip(
                old_sizes.len() as int,
            ));
        }
        let ghost pre_w = w.bytes();
        let ghost pre_list = blocks.list();
        let desc = match write_tree(&pairs, 4096, w, blocks) {
            Ok(x) => x,
            Err(e) => {
                return Err(e);
            },
        };
        proof {
            assert(forall|k: int|
                0 <= k < s.len() ==> #[trigger] blocks.list()[base + 3 * k] == pre_list[base + 3
                    * k] && blocks.list()[base + 3 * k + 1] == pre_list[base + 3 * k + 1]
                    && blocks.list()[base + 3 * k + 2] == pre_list[base + 3 * k + 2]);
            lemma_frame_component_blocks(
                pre_w,
                w.bytes(),
                pre_list,
                blocks.list(),
                base,
                s,
                s.len() as int,
            );
            assert(pairs@ =~= Seq::new(
                s.len(),
                |k: int| (((base + 3 * k + 1) as u32), ((base + 3 * k + 2) as u32)),
            ));
            assert(tree_written_at(base + 3 * (s.len() as int), *w, *blocks, desc, pairs@, 4096));
        }
        Ok(desc)
    }

    /// Read the paths tree back: every key block names its metadata
    /// block, whose 64-bit size comes from the context's table when it
    /// has one; the components come out ordered by sequence number.
    pub fn read_block(i: u32, file: &[u8], blocks: &Blocks, ctx: &Context) -> (r: Result<
        Self,
        Error,
    >)
        requires
            blocks.wf(),
        ensures
            lone_tree_count(file@, blocks.list(), i) is Some ==> (match r {
                Ok(v) => v.components().len() == lone_tree_count(file@, blocks.list(), i).unwrap(),
                Err(_) => true,
            }),
            match r {
                Ok(v) => v.wf() && sorted_by_seq(v.components()),
                Err(e) => e != Error::PathLoop,
            },
    {
        let (pairs, _block_len) = read_tree(i, file, blocks)?;
        let mut comps: Vec<PathComponent> = Vec::new();
        let mut k: usize = 0;
        while k < pairs.len()
            invariant
                k <= pairs@.len(),
                comps@.len() == k,
                k <= u32::MAX,
                blocks.wf(),
            decreases pairs@.len() - k,
        {
            if k >= u32::MAX as usize {
                return Err(Error::TooManyEntries);
            }
            let (kb, vb) = pairs[k];
            let kdata = blocks.slice(kb, file)?;
            let mut pos: usize = 0;
            let seq_no = match read_u32(kdata, &mut pos) {
                Ok(v) => v,
                Err(e) => {
                    return Err(e);
                },
            };
            let meta_idx = match read_u32(kdata, &mut pos) {
                Ok(v) => v,
                Err(e) => {
                    return Err(e);
                },
            };
            let mdata = blocks.slice(meta_idx, file)?;
            let mut metadata = match read_metadata(mdata) {
                Ok(m) => m,
                Err(e) => {
                    return Err(e);
                },
            };
            match ctx.file_sizes.get(meta_idx) {
                Some(size) => {
                    metadata.set_size(size);
                },
                None => {},
            }
            let vdata = blocks.slice(vb, file)?;
            let mut pos2: usize = 0;
            let parent = match read_u32(vdata, &mut pos2) {
                Ok(v) => v,
                Err(e) => {
                    return Err(e);
                },
            };
            // the rest of the value block is the NUL-terminated name
            if vdata.len() < 5 {
                return Err(Error::InvalidData);
            }
            let mut name: Vec<u8> = Vec::new();
            let mut p: usize = 4;
            while p < vdata.len() - 1
                invariant
                    4 <= p <= vdata@.len() - 1,
                decreases vdata@.len() - p,
            {
                let b = vdata[p];
                if b == 0 {
                    return Err(Error::InvalidData);
                }
                name.push(b);
                p = p + 1;
            }
            if vdata[vdata.len() - 1] != 0 {
                return Err(Error::InvalidData);
            }
            comps.push(PathComponent { seq_no, parent, metadata, name });
            k = k + 1;
        }
        let sorted = sort_components(comps);
        Ok(PathComponentVec { components: sorted })
    }
}

} // verus!
