//! The stand-alone dump: every function body of a crate, its blocks
//! named in reverse postorder.

use vstd::prelude::*;

use crate::blocks::{build_fn_blocks, built_from, count, lemma_successors_in_block_position_order, lemma_successors_mirror_predecessors, linkable, FnBlocks, RawFn};

verus! {

pub struct Trans {}

/// What the dump needs of a function body: a predecessor list per
/// block, a reverse postorder that names every block with a block index,
/// and every predecessor of a named block itself named in it.
pub open spec fn dumpable(raw: RawFn) -> bool {
    linkable(raw.blocks@.len(), raw.rpo@, raw.preds.deep_view())
}

impl Trans {
    /// The blocks of every function body: block `k` is shown under the
    /// `k`-th block of the reverse postorder, and gets the predecessors and
    /// successors of that block.
    pub fn parse_mir(fns: Vec<RawFn>) -> (ret: Vec<FnBlocks>)
        requires
            forall|k: int| 0 <= k < fns@.len() ==> dumpable(#[trigger] fns@[k]),
        ensures
            ret@.len() == fns@.len(),
            forall|k: int|
                0 <= k < ret@.len() ==> built_from(#[trigger] ret@[k], fns@[k], fns@[k].rpo@),
    {
        let ghost fs = fns@;
        let mut fns = fns;
        let n = fns.len();
        let mut ret: Vec<FnBlocks> = Vec::new();
        let mut k: usize = 0;
        while k < n
            invariant
                n == fs.len(),
                0 <= k <= n,
                fns@ == fs.skip(k as int),
                ret@.len() == k,
                forall|j: int| 0 <= j < fs.len() ==> dumpable(#[trigger] fs[j]),
                forall|j: int| 0 <= j < k ==> built_from(#[trigger] ret@[j], fs[j], fs[j].rpo@),
            decreases n - k,
        {
            let ghost before = fns@;
            let raw = fns.remove(0);
            proof {
                assert(raw == before[0]);
                assert(before[0] == fs[k as int]);
                assert(fns@ =~= fs.skip(k + 1));
            }
            let order = crate::blocks::copy_indices(&raw.rpo);
            let f = build_fn_blocks(raw, &order);
            ret.push(f);
            k = k + 1;
        }
        ret
    }
}

} // verus!

verus! {

/// For a body whose reverse postorder names each block once, the blocks that
/// `parse_mir` builds have successors that mirror predecessors (block `j`
/// stands among the successors of block `k` as often as `k` stands among
/// the predecessors of `j`), and each block's successors are blocks of the
/// body listed in the order in which those blocks stand.
pub proof fn lemma_parse_mir_successors(f: FnBlocks, raw: RawFn, j: int, k: int)
    requires
        built_from(f, raw, raw.rpo@),
        raw.rpo@.len() == raw.blocks@.len(),
        forall|a: int, b: int| 0 <= a < b < raw.rpo@.len() ==> raw.rpo@[a] != raw.rpo@[b],
        0 <= j < raw.blocks@.len(),
        0 <= k < raw.blocks@.len(),
    ensures
        count(f.blocks@[k].suc_blocks@, f.blocks@[j].block_name) == count(
            f.blocks@[j].pre_blocks@,
            f.blocks@[k].block_name,
        ),
        forall|a: int|
            0 <= a < f.blocks@[k].suc_blocks@.len() ==> exists|i: int|
                0 <= i < f.blocks@.len() && f.blocks@[i].block_name
                    == #[trigger] f.blocks@[k].suc_blocks@[a],
        forall|a: int, b: int, ja: int, jb: int|
            #![trigger f.blocks@[ja], f.blocks@[jb], f.blocks@[k].suc_blocks@[a], f.blocks@[k].suc_blocks@[b]]
            0 <= a <= b < f.blocks@[k].suc_blocks@.len() && 0 <= ja < f.blocks@.len() && 0 <= jb
                < f.blocks@.len() && f.blocks@[ja].block_name == f.blocks@[k].suc_blocks@[a]
                && f.blocks@[jb].block_name == f.blocks@[k].suc_blocks@[b] ==> ja <= jb,
{
    lemma_successors_mirror_predecessors(f, raw, raw.rpo@, j, k);
    lemma_successors_in_block_position_order(f, raw, raw.rpo@, k);
}

} // verus!
