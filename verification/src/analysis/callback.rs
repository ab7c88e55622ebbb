//! The compiler callbacks: the state they keep, and what they make of the
//! function bodies they are handed.

use vstd::prelude::*;

use crate::blocks::{build_fn_blocks, built_from, fn_report, linked_block, FnBlocks, RawFn};
use crate::chains::{all_chains, chain_report, render_chains, walk_terminates};

verus! {

/// The analysis' state between compiler callbacks.
pub struct MirCheckerCallbacks<O> {
    pub analysis_options: O,
    /// The `Debug` text of the source's name, once the compiler is configured.
    pub source_name: String,
}

/// The block indices `0..n`, each block shown under its own index.
pub open spec fn identity(n: nat) -> Seq<usize> {
    Seq::new(n, |i: int| i as usize)
}

/// What the analysis needs of a function body: at least one block, one
/// predecessor list per block, and predecessors that are blocks of it.
pub open spec fn analyzable(raw: RawFn) -> bool {
    let n = raw.blocks@.len();
    &&& n > 0
    &&& raw.preds@.len() == n
    &&& forall|k: int, m: int|
        0 <= k < n && 0 <= m < raw.preds@[k]@.len() ==> (#[trigger] raw.preds@[k]@[m]) < n
}

/// What the analysis reports of one function: its dump, then the report of
/// its chains, those it held and those found from its entry block.
pub open spec fn function_report(f: FnBlocks) -> Seq<Seq<char>> {
    fn_report(f.fn_name@, f.blocks@) + chain_report(
        f.cond_chains.deep_view() + render_chains(all_chains(f.blocks@)),
    )
}

/// The report of the analysis over some functions: the report of each, in
/// order.
pub open spec fn analysis_report(fs: Seq<FnBlocks>) -> Seq<Seq<char>>
    decreases fs.len(),
{
    if fs.len() == 0 {
        Seq::empty()
    } else {
        analysis_report(fs.drop_last()) + function_report(fs.last())
    }
}

/// The report over some functions is the reports over its parts, one after
/// the other, and the report over one function is that function's report:
/// so the functions are reported in the order given, each exactly once.
pub proof fn lemma_analysis_report_in_order(a: Seq<FnBlocks>, b: Seq<FnBlocks>, f: FnBlocks)
    ensures
        analysis_report(a + b) == analysis_report(a) + analysis_report(b),
        analysis_report(seq![f]) == function_report(f),
    decreases b.len(),
{
    assert(seq![f].drop_last() =~= Seq::<FnBlocks>::empty());
    assert(seq![f].last() == f);
    assert(analysis_report(seq![f]) == analysis_report(Seq::<FnBlocks>::empty()) + function_report(f));
    assert(Seq::<Seq<char>>::empty() + function_report(f) =~= function_report(f));
    if b.len() == 0 {
        assert(a + b =~= a);
        assert(analysis_report(a) + analysis_report(b) =~= analysis_report(a));
    } else {
        lemma_analysis_report_in_order(a, b.drop_last(), f);
        assert((a + b).drop_last() =~= a + b.drop_last());
        assert((a + b).last() == b.last());
        assert(analysis_report(a) + analysis_report(b.drop_last()) + function_report(b.last())
            =~= analysis_report(a) + (analysis_report(b.drop_last()) + function_report(b.last())));
    }
}

impl<O> MirCheckerCallbacks<O> {
    pub fn new(options: O) -> (r: Self)
        ensures
            r.analysis_options == options,
            r.source_name@ == Seq::<char>::empty(),
    {
        Self { analysis_options: options, source_name: String::new() }
    }

    /// Before the compiler instance is created: records the source's name
    /// and turns on the `mir_checker` configuration flag.
    pub fn config(&mut self, source_name: String, crate_cfg: &mut Vec<String>)
        ensures
            final(self).source_name == source_name,
            final(self).analysis_options == old(self).analysis_options,
            final(crate_cfg).deep_view() == old(crate_cfg).deep_view().push("mir_checker"@),
    {
        self.source_name = source_name;
        let flag = String::from_str("mir_checker");
        let ghost c0 = *crate_cfg;
        let ghost x = flag;
        crate_cfg.push(flag);
        proof {
            crate::text::lemma_deep_view_push(c0, *crate_cfg, x);
        }
    }

    /// The blocks of one function body, each block shown under its own
    /// index, its successors rebuilt from the predecessor lists.
    pub fn fn_blocks(raw: RawFn) -> (f: FnBlocks)
        requires
            analyzable(raw),
        ensures
            built_from(f, raw, identity(raw.blocks@.len())),
    {
        let n = raw.blocks.len();
        let mut names: Vec<usize> = Vec::new();
        let mut i: usize = 0;
        while i < n
            invariant
                0 <= i <= n,
                names@ == identity(i as nat),
            decreases n - i,
        {
            names.push(i);
            proof {
                assert(names@ =~= identity((i + 1) as nat));
            }
            i = i + 1;
        }
        proof {
            let pv = raw.preds.deep_view();
            assert forall|k: int, m: int|
                0 <= k < n && 0 <= m < pv[names@[k] as int].len() implies names@.contains(
                #[trigger] pv[names@[k] as int][m],
            ) by {
                assert(names@[k] == k);
                assert(pv[k] == raw.preds@[k]@);
                let p = raw.preds@[k]@[m];
                assert(names@[p as int] == p);
            }
        }
        build_fn_blocks(raw, &names)
    }

    /// After analysis: the dump of each function, each followed by the
    /// report of its condition chains.
    pub fn run_analysis(&self, fns: Vec<FnBlocks>) -> (lines: Vec<String>)
        requires
            forall|k: int| 0 <= k < fns@.len() ==> walk_terminates((#[trigger] fns@[k]).blocks@),
        ensures
            lines.deep_view() == analysis_report(fns@),
    {
        let ghost fs = fns@;
        let mut fns = fns;
        let mut lines: Vec<String> = Vec::new();
        let mut k: usize = 0;
        let n = fns.len();
        while k < n
            invariant
                n == fs.len(),
                0 <= k <= n,
                fns@ == fs.skip(k as int),
                forall|j: int| 0 <= j < fs.len() ==> walk_terminates((#[trigger] fs[j]).blocks@),
                lines.deep_view() == analysis_report(fs.take(k as int)),
            decreases n - k,
        {
            let mut block = fns.remove(0);
            proof {
                assert(block == fs[k as int]);
                assert(fns@ =~= fs.skip(k + 1));
            }
            let dump = block.my_cout();
            let report = block.cond_chain_cout();
            crate::text::append_lines(&mut lines, dump);
            crate::text::append_lines(&mut lines, report);
            proof {
                assert(fs.take(k + 1).drop_last() =~= fs.take(k as int));
                assert(lines.deep_view() =~= analysis_report(fs.take(k + 1)));
            }
            k = k + 1;
        }
        proof {
            assert(fs.take(n as int) =~= fs);
        }
        lines
    }
}

} // verus!

verus! {

/// With every block shown under its own index, the successors of each block
/// are blocks of the function, listed in ascending order.
pub proof fn lemma_successors_in_block_order(f: FnBlocks, raw: RawFn, k: int)
    requires
        built_from(f, raw, identity(raw.blocks@.len())),
        0 <= k < raw.blocks@.len(),
    ensures
        forall|a: int|
            0 <= a < f.blocks@[k].suc_blocks@.len() ==> (#[trigger] f.blocks@[k].suc_blocks@[a])
                < raw.blocks@.len(),
        forall|a: int, b: int|
            0 <= a <= b < f.blocks@[k].suc_blocks@.len() ==> f.blocks@[k].suc_blocks@[a]
                <= f.blocks@[k].suc_blocks@[b],
{
    let n = raw.blocks@.len();
    let names = identity(n);
    let pv = raw.preds.deep_view();
    assert(linked_block(f.blocks@[k], raw.blocks@[k], k, names, pv, n));
    assert(raw.blocks.len() == n);
    assert forall|i: int| 0 <= i < names.len() implies names[i] == i by {
        assert(i < raw.blocks.len());
    }
    crate::blocks::lemma_successors_ascending(names, pv, names[k], n as int);
}

} // verus!
