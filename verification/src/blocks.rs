//! The blocks of a function body as the analysis sees them, and the
//! successor table that is rebuilt from the predecessor lists.

use vstd::prelude::*;

use crate::text::{block_label, block_label_string, block_list, block_list_string, debug_quoted, debug_string, decimal, decimal_string, lemma_deep_view_push, append_lines};

verus! {

/// What a `SwitchInt` terminator branches on.
pub struct SwitchInfo {
    /// The `Debug` text of the terminator's kind, such as
    /// `switchInt(move _3) -> [0: bb2, otherwise: bb1]`.
    pub kind: String,
    /// The `(value, target block)` pairs, in the terminator's order.
    pub targets: Vec<(u128, usize)>,
    /// The block taken when no value matches.
    pub otherwise: usize,
}

/// One basic block as it is read out of a function body.
pub struct RawBlock {
    /// The `Debug` text of each statement.
    pub statements: Vec<String>,
    /// The `Debug` text of the terminator.
    pub terminator: String,
    /// The branch targets, where the terminator is a `SwitchInt`.
    pub switch: Option<SwitchInfo>,
}

/// One function body as it is read out of the compiler.
pub struct RawFn {
    /// The `Debug` text of the function's definition id.
    pub name: String,
    /// The blocks, by index.
    pub blocks: Vec<RawBlock>,
    /// The blocks in reverse postorder.
    pub rpo: Vec<usize>,
    /// The predecessors of each block, by index.
    pub preds: Vec<Vec<usize>>,
}

/// A basic block with its neighbours.
pub struct MyBlock {
    /// The index under which the block is shown.
    pub block_name: usize,
    pub statements: Vec<String>,
    pub terminator: String,
    pub switch: Option<SwitchInfo>,
    /// The blocks that jump here.
    pub pre_blocks: Vec<usize>,
    /// The blocks that this one jumps to, rebuilt from `pre_blocks`.
    pub suc_blocks: Vec<usize>,
}

/// The blocks of one function, and the condition chains found so far.
pub struct FnBlocks {
    pub fn_name: String,
    pub blocks: Vec<MyBlock>,
    /// Each chain: (condition, block) steps from the entry to an exit.
    pub cond_chains: Vec<Vec<(String, String)>>,
}

/// How often `v` occurs in `s`.
pub open spec fn count(s: Seq<usize>, v: usize) -> nat
    decreases s.len(),
{
    if s.len() == 0 {
        0
    } else {
        count(s.drop_last(), v) + if s.last() == v { 1nat } else { 0nat }
    }
}

/// `x`, `n` times.
pub open spec fn repeat(x: usize, n: nat) -> Seq<usize> {
    Seq::new(n, |_i: int| x)
}

/// The successors of the block named `v`, as far as the first `k` blocks
/// show them: for each block in turn, its name once for every time `v`
/// stands among its predecessors.
pub open spec fn successors_upto(
    names: Seq<usize>,
    preds: Seq<Seq<usize>>,
    v: usize,
    k: int,
) -> Seq<usize>
    decreases k,
{
    if k <= 0 {
        Seq::empty()
    } else {
        successors_upto(names, preds, v, k - 1) + repeat(
            names[k - 1],
            count(preds[names[k - 1] as int], v),
        )
    }
}

/// What the construction of a function's blocks needs: one predecessor list
/// per block, a name in range for each block, and every predecessor of a
/// named block itself among the names.
pub open spec fn linkable(n: nat, names: Seq<usize>, preds: Seq<Seq<usize>>) -> bool {
    &&& preds.len() == n
    &&& names.len() >= n
    &&& forall|k: int| 0 <= k < names.len() ==> names[k] < n
    &&& forall|k: int, m: int|
        0 <= k < n && 0 <= m < preds[names[k] as int].len() ==> names.contains(
            #[trigger] preds[names[k] as int][m],
        )
}

/// The block built at position `k`, from `raw` block `k` and the name
/// `names[k]`.
pub open spec fn linked_block(
    b: MyBlock,
    r: RawBlock,
    k: int,
    names: Seq<usize>,
    preds: Seq<Seq<usize>>,
    n: nat,
) -> bool {
    &&& b.block_name == names[k]
    &&& b.statements == r.statements
    &&& b.terminator == r.terminator
    &&& b.switch == r.switch
    &&& b.pre_blocks@ == preds[names[k] as int]
    &&& b.suc_blocks@ == successors_upto(names, preds, names[k], n as int)
}

/// A copy of a list of block indices.
pub fn copy_indices(v: &Vec<usize>) -> (r: Vec<usize>)
    ensures
        r@ == v@,
{
    let mut r: Vec<usize> = Vec::new();
    let mut i: usize = 0;
    while i < v.len()
        invariant
            0 <= i <= v.len(),
            r@ == v@.take(i as int),
        decreases v.len() - i,
    {
        r.push(v[i]);
        proof {
            assert(v@.take(i + 1) =~= v@.take(i as int).push(v@[i as int]));
        }
        i = i + 1;
    }
    proof {
        assert(v@.take(v.len() as int) =~= v@);
    }
    r
}

/// Builds the blocks of a function body: block `k` of `raw` is shown under
/// `names[k]`, keeps its predecessors from `preds`, and gets as successors
/// every block that lists it as a predecessor, in block order.
pub fn link_blocks(raw: Vec<RawBlock>, names: &Vec<usize>, preds: &Vec<Vec<usize>>) -> (r: Vec<MyBlock>)
    requires
        linkable(raw@.len(), names@, preds.deep_view()),
    ensures
        r@.len() == raw@.len(),
        forall|k: int| 0 <= k < r@.len() ==> linked_block(
            #[trigger] r@[k],
            raw@[k],
            k,
            names@,
            preds.deep_view(),
            raw@.len(),
        ),
{
    let n = raw.len();
    let ghost pv = preds.deep_view();
    let ghost nv = names@;
    let mut suc: Vec<Vec<usize>> = Vec::new();
    let mut i: usize = 0;
    while i < n
        invariant
            0 <= i <= n,
            suc@.len() == i,
            forall|v: int| 0 <= v < i ==> (#[trigger] suc@[v])@ == Seq::<usize>::empty(),
        decreases n - i,
    {
        suc.push(Vec::new());
        i = i + 1;
    }
    let mut k: usize = 0;
    while k < n
        invariant
            n == raw@.len(),
            pv == preds.deep_view(),
            nv == names@,
            linkable(n as nat, nv, pv),
            0 <= k <= n,
            suc@.len() == n,
            forall|v: int| 0 <= v < n ==> (#[trigger] suc@[v])@ == successors_upto(nv, pv, v as usize, k as int),
        decreases n - k,
    {
        let name = names[k];
        let pre = &preds[name];
        assert(pre@ == pv[name as int]);
        let mut m: usize = 0;
        while m < pre.len()
            invariant
                n == raw@.len(),
                pv == preds.deep_view(),
                nv == names@,
                linkable(n as nat, nv, pv),
                0 <= k < n,
                name == nv[k as int],
                pre@ == pv[name as int],
                0 <= m <= pre@.len(),
                suc@.len() == n,
                forall|v: int| 0 <= v < n ==> (#[trigger] suc@[v])@ == successors_upto(nv, pv, v as usize, k as int)
                    + repeat(name, count(pre@.take(m as int), v as usize)),
            decreases pre@.len() - m,
        {
            let p = pre[m];
            assert(nv.contains(pv[nv[k as int] as int][m as int]));
            let mut cur: Vec<usize> = Vec::new();
            suc.set_and_swap(p, &mut cur);
            cur.push(name);
            suc.set_and_swap(p, &mut cur);
            proof {
                assert(pre@.take(m + 1).drop_last() =~= pre@.take(m as int));
                assert forall|v: int| 0 <= v < n implies (#[trigger] suc@[v])@ == successors_upto(nv, pv, v as usize, k as int)
                    + repeat(name, count(pre@.take(m + 1), v as usize)) by {
                    if v == p {
                        assert(repeat(name, count(pre@.take(m + 1), v as usize)) =~= repeat(name, count(pre@.take(m as int), v as usize)).push(name));
                    }
                }
            }
            m = m + 1;
        }
        proof {
            assert(pre@.take(pre@.len() as int) =~= pre@);
        }
        k = k + 1;
    }
    let mut raw = raw;
    let ghost raw0 = raw@;
    let mut out: Vec<MyBlock> = Vec::new();
    let mut j: usize = 0;
    while j < n
        invariant
            n == raw0.len(),
            pv == preds.deep_view(),
            nv == names@,
            linkable(n as nat, nv, pv),
            0 <= j <= n,
            raw@ == raw0.skip(j as int),
            out@.len() == j,
            suc@.len() == n,
            forall|v: int| 0 <= v < n ==> (#[trigger] suc@[v])@ == successors_upto(nv, pv, v as usize, n as int),
            forall|q: int| 0 <= q < j ==> linked_block(#[trigger] out@[q], raw0[q], q, nv, pv, n as nat),
        decreases n - j,
    {
        let ghost before = raw@;
        let rb = raw.remove(0);
        proof {
            assert(raw@ =~= raw0.skip(j + 1));
            assert(rb == before[0]);
            assert(before[0] == raw0[j as int]);
        }
        let name = names[j];
        assert(preds[name as int]@ == pv[name as int]);
        let b = MyBlock {
            block_name: name,
            statements: rb.statements,
            terminator: rb.terminator,
            switch: rb.switch,
            pre_blocks: copy_indices(&preds[name]),
            suc_blocks: copy_indices(&suc[name]),
        };
        assert(linked_block(b, raw0[j as int], j as int, nv, pv, n as nat));
        out.push(b);
        j = j + 1;
    }
    out
}

} // verus!

verus! {

/// The statement lines of a block: `i: statement` for each.
pub open spec fn statement_lines(stmts: Seq<String>) -> Seq<Seq<char>> {
    Seq::new(stmts.len(), |k: int| decimal(k as nat) + ": "@ + stmts[k]@)
}

/// The dump of one block: its name, its numbered statements, its
/// terminator, its predecessors and successors, and an empty line.
pub open spec fn block_lines(b: MyBlock) -> Seq<Seq<char>> {
    seq![block_label(b.block_name as nat)] + statement_lines(b.statements@) + seq![
        "terminator "@ + b.terminator@,
        "preds "@ + block_list(b.pre_blocks@),
        "succs "@ + block_list(b.suc_blocks@),
        Seq::<char>::empty(),
    ]
}

/// The dumps of the blocks, in order.
pub open spec fn blocks_report(bs: Seq<MyBlock>) -> Seq<Seq<char>>
    decreases bs.len(),
{
    if bs.len() == 0 {
        Seq::empty()
    } else {
        blocks_report(bs.drop_last()) + block_lines(bs.last())
    }
}

/// The dump of a function: its name quoted, an empty line, then its blocks.
pub open spec fn fn_report(name: Seq<char>, bs: Seq<MyBlock>) -> Seq<Seq<char>> {
    seq![debug_quoted(name), Seq::<char>::empty()] + blocks_report(bs)
}

/// The lines of one block's dump.
fn block_dump(b: &MyBlock) -> (lines: Vec<String>)
    ensures
        lines.deep_view() == block_lines(*b),
{
    let mut lines: Vec<String> = Vec::new();
    lines.push(block_label_string(b.block_name));
    let mut i: usize = 0;
    while i < b.statements.len()
        invariant
            0 <= i <= b.statements@.len(),
            lines@.len() == i + 1,
            lines.deep_view() == seq![block_label(b.block_name as nat)] + statement_lines(
                b.statements@,
            ).take(i as int),
        decreases b.statements@.len() - i,
    {
        let mut line = decimal_string(i as u128);
        line.append(": ");
        line.append(b.statements[i].as_str());
        let ghost l0 = lines;
        let ghost x = line;
        lines.push(line);
        proof {
            lemma_deep_view_push(l0, lines, x);
            assert(lines.deep_view() =~= seq![block_label(b.block_name as nat)] + statement_lines(
                b.statements@,
            ).take(i + 1));
        }
        i = i + 1;
    }
    proof {
        assert(statement_lines(b.statements@).take(b.statements@.len() as int) =~= statement_lines(
            b.statements@,
        ));
    }
    let mut t = String::from_str("terminator ");
    t.append(b.terminator.as_str());
    lines.push(t);
    let mut p = String::from_str("preds ");
    let pl = block_list_string(&b.pre_blocks);
    p.append(pl.as_str());
    lines.push(p);
    let mut s = String::from_str("succs ");
    let sl = block_list_string(&b.suc_blocks);
    s.append(sl.as_str());
    lines.push(s);
    lines.push(String::new());
    proof {
        assert(lines.deep_view() =~= block_lines(*b));
    }
    lines
}

/// The dump of a function given its name already quoted: the quoted name,
/// an empty line, then each block's dump.
pub fn fn_dump(quoted_name: &str, blocks: &Vec<MyBlock>) -> (lines: Vec<String>)
    ensures
        lines.deep_view() == seq![quoted_name@, Seq::<char>::empty()] + blocks_report(blocks@),
{
    let mut lines: Vec<String> = Vec::new();
    lines.push(String::from_str(quoted_name));
    lines.push(String::new());
    proof {
        assert(lines.deep_view() =~= seq![quoted_name@, Seq::<char>::empty()]);
    }
    let mut k: usize = 0;
    while k < blocks.len()
        invariant
            0 <= k <= blocks@.len(),
            lines.deep_view() == seq![quoted_name@, Seq::<char>::empty()] + blocks_report(
                blocks@.take(k as int),
            ),
        decreases blocks@.len() - k,
    {
        let more = block_dump(&blocks[k]);
        append_lines(&mut lines, more);
        proof {
            assert(blocks@.take(k + 1).drop_last() =~= blocks@.take(k as int));
            assert(lines.deep_view() =~= seq![quoted_name@, Seq::<char>::empty()] + blocks_report(
                blocks@.take(k + 1),
            ));
        }
        k = k + 1;
    }
    proof {
        assert(blocks@.take(blocks@.len() as int) =~= blocks@);
    }
    lines
}

impl FnBlocks {
    /// The dump of the function: its name as `{:?}` shows it, an empty line,
    /// then for each block its name, its statements numbered from 0, its
    /// terminator, `preds [..]`, `succs [..]` and an empty line.
    pub fn my_cout(&self) -> (lines: Vec<String>)
        ensures
            lines.deep_view() == fn_report(self.fn_name@, self.blocks@),
    {
        let quoted = debug_string(self.fn_name.as_str());
        fn_dump(quoted.as_str(), &self.blocks)
    }
}

} // verus!

verus! {

/// `f` holds the blocks of `raw`, block `k` shown under `names[k]`, and no
/// chains yet.
pub open spec fn built_from(f: FnBlocks, raw: RawFn, names: Seq<usize>) -> bool {
    &&& f.fn_name == raw.name
    &&& f.cond_chains@.len() == 0
    &&& f.blocks@.len() == raw.blocks@.len()
    &&& forall|k: int|
        0 <= k < f.blocks@.len() ==> linked_block(
            #[trigger] f.blocks@[k],
            raw.blocks@[k],
            k,
            names,
            raw.preds.deep_view(),
            raw.blocks@.len(),
        )
}

/// Builds a function's blocks, block `k` shown under `names[k]`.
pub fn build_fn_blocks(raw: RawFn, names: &Vec<usize>) -> (f: FnBlocks)
    requires
        linkable(raw.blocks@.len(), names@, raw.preds.deep_view()),
    ensures
        built_from(f, raw, names@),
{
    let RawFn { name, blocks, rpo: _, preds } = raw;
    let linked = link_blocks(blocks, names, &preds);
    FnBlocks { fn_name: name, blocks: linked, cond_chains: Vec::new() }
}

} // verus!

verus! {

proof fn lemma_count_concat(a: Seq<usize>, b: Seq<usize>, x: usize)
    ensures
        count(a + b, x) == count(a, x) + count(b, x),
    decreases b.len(),
{
    if b.len() > 0 {
        lemma_count_concat(a, b.drop_last(), x);
        assert((a + b).drop_last() =~= a + b.drop_last());
    } else {
        assert(a + b =~= a);
    }
}

proof fn lemma_count_repeat(y: usize, c: nat, x: usize)
    ensures
        count(repeat(y, c), x) == if y == x { c } else { 0 },
    decreases c,
{
    if c > 0 {
        lemma_count_repeat(y, (c - 1) as nat, x);
        assert(repeat(y, c).drop_last() =~= repeat(y, (c - 1) as nat));
    }
}

/// Successors mirror predecessors: among the first `n` names, which are
/// distinct, block `x` stands among the successors of `v` as often as `v`
/// stands among the predecessors of `x`; a block that is not named never
/// stands there.
pub proof fn lemma_successor_counts(
    names: Seq<usize>,
    preds: Seq<Seq<usize>>,
    v: usize,
    x: usize,
    n: int,
)
    requires
        0 <= n <= names.len(),
        forall|a: int, b: int| 0 <= a < b < n ==> names[a] != names[b],
    ensures
        count(successors_upto(names, preds, v, n), x) == if names.take(n).contains(x) {
            count(preds[x as int], v)
        } else {
            0
        },
    decreases n,
{
    if n > 0 {
        lemma_successor_counts(names, preds, v, x, n - 1);
        let y = names[n - 1];
        let c = count(preds[y as int], v);
        lemma_count_concat(successors_upto(names, preds, v, n - 1), repeat(y, c), x);
        lemma_count_repeat(y, c, x);
        assert(names.take(n) =~= names.take(n - 1).push(y));
        if y == x {
            assert(names.take(n)[n - 1] == x);
            assert(!names.take(n - 1).contains(x)) by {
                if names.take(n - 1).contains(x) {
                    let a = choose|a: int| 0 <= a < n - 1 && #[trigger] names.take(n - 1)[a] == x;
                    assert(names[a] == names[n - 1]);
                }
            }
        } else {
            assert(names.take(n).contains(x) == names.take(n - 1).contains(x)) by {
                if names.take(n).contains(x) {
                    let a = choose|a: int| 0 <= a < n && #[trigger] names.take(n)[a] == x;
                    assert(names.take(n - 1)[a] == x);
                }
            }
        }
    } else {
        assert(!names.take(0).contains(x));
    }
}

/// Where every block is shown under its own index, the successors that the
/// first `k` blocks give are blocks before `k`, in ascending order.
pub proof fn lemma_successors_ascending(names: Seq<usize>, preds: Seq<Seq<usize>>, v: usize, k: int)
    requires
        0 <= k <= names.len(),
        forall|i: int| 0 <= i < names.len() ==> names[i] == i,
    ensures
        forall|a: int|
            0 <= a < successors_upto(names, preds, v, k).len() ==> (#[trigger] successors_upto(
                names,
                preds,
                v,
                k,
            )[a]) < k,
        forall|a: int, b: int|
            0 <= a <= b < successors_upto(names, preds, v, k).len() ==> successors_upto(
                names,
                preds,
                v,
                k,
            )[a] <= successors_upto(names, preds, v, k)[b],
    decreases k,
{
    if k > 0 {
        lemma_successors_ascending(names, preds, v, k - 1);
        let prev = successors_upto(names, preds, v, k - 1);
        let r = repeat(names[k - 1], count(preds[names[k - 1] as int], v));
        assert(successors_upto(names, preds, v, k) == prev + r);
        assert forall|a: int| 0 <= a < (prev + r).len() implies (#[trigger] (prev + r)[a]) < k by {
            if a >= prev.len() {
                assert((prev + r)[a] == r[a - prev.len()]);
            } else {
                assert((prev + r)[a] == prev[a]);
            }
        }
        assert forall|a: int, b: int| 0 <= a <= b < (prev + r).len() implies (prev + r)[a] <= (prev + r)[b] by {
            if b >= prev.len() {
                assert((prev + r)[b] == r[b - prev.len()]);
                if a < prev.len() {
                    assert((prev + r)[a] == prev[a]);
                    assert(prev[a] < k - 1);
                } else {
                    assert((prev + r)[a] == r[a - prev.len()]);
                }
            } else {
                assert((prev + r)[a] == prev[a]);
                assert((prev + r)[b] == prev[b]);
            }
        }
    }
}

} // verus!

verus! {

/// In a function whose blocks carry distinct names, block `j` stands among
/// the successors of block `k` exactly as often as block `k` stands among
/// the predecessors of block `j`.
pub proof fn lemma_successors_mirror_predecessors(
    f: FnBlocks,
    raw: RawFn,
    names: Seq<usize>,
    j: int,
    k: int,
)
    requires
        built_from(f, raw, names),
        raw.blocks@.len() <= names.len(),
        forall|a: int, b: int| 0 <= a < b < raw.blocks@.len() ==> names[a] != names[b],
        0 <= j < raw.blocks@.len(),
        0 <= k < raw.blocks@.len(),
    ensures
        count(f.blocks@[k].suc_blocks@, f.blocks@[j].block_name) == count(
            f.blocks@[j].pre_blocks@,
            f.blocks@[k].block_name,
        ),
{
    let n = raw.blocks@.len() as int;
    let pv = raw.preds.deep_view();
    assert(linked_block(f.blocks@[j], raw.blocks@[j], j, names, pv, raw.blocks@.len()));
    assert(linked_block(f.blocks@[k], raw.blocks@[k], k, names, pv, raw.blocks@.len()));
    lemma_successor_counts(names, pv, names[k], names[j], n);
    assert(names.take(n)[j] == names[j]);
}

} // verus!

verus! {

/// The successors that the first `k` blocks give come in block order: each
/// is the name of one of those blocks, and where the names are distinct, a
/// successor that stands later in the list is the name of a block at the
/// same or a later position.
pub proof fn lemma_successors_in_name_order(names: Seq<usize>, preds: Seq<Seq<usize>>, v: usize, k: int)
    requires
        0 <= k <= names.len(),
        forall|a: int, b: int| 0 <= a < b < names.len() ==> names[a] != names[b],
    ensures
        forall|a: int|
            0 <= a < successors_upto(names, preds, v, k).len() ==> exists|p: int|
                0 <= p < k && names[p] == #[trigger] successors_upto(names, preds, v, k)[a],
        forall|a: int, b: int, pa: int, pb: int|
            #![trigger names[pa], names[pb], successors_upto(names, preds, v, k)[a], successors_upto(names, preds, v, k)[b]]
            0 <= a <= b < successors_upto(names, preds, v, k).len() && 0 <= pa < names.len()
                && 0 <= pb < names.len() && names[pa] == successors_upto(names, preds, v, k)[a]
                && names[pb] == successors_upto(names, preds, v, k)[b] ==> pa <= pb,
    decreases k,
{
    if k > 0 {
        lemma_successors_in_name_order(names, preds, v, k - 1);
        let prev = successors_upto(names, preds, v, k - 1);
        let r = repeat(names[k - 1], count(preds[names[k - 1] as int], v));
        let s = successors_upto(names, preds, v, k);
        assert(s == prev + r);
        assert forall|a: int| 0 <= a < s.len() implies exists|p: int|
            0 <= p < k && names[p] == #[trigger] s[a] by {
            if a >= prev.len() {
                assert(s[a] == r[a - prev.len()]);
                assert(names[k - 1] == s[a]);
            } else {
                assert(s[a] == prev[a]);
                let p = choose|p: int| 0 <= p < k - 1 && names[p] == #[trigger] prev[a];
                assert(names[p] == s[a]);
            }
        }
        assert forall|a: int, b: int, pa: int, pb: int|
            #![trigger names[pa], names[pb], s[a], s[b]]
            0 <= a <= b < s.len() && 0 <= pa < names.len() && 0 <= pb < names.len()
                && names[pa] == s[a] && names[pb] == s[b] implies pa <= pb by {
            if b >= prev.len() {
                assert(s[b] == r[b - prev.len()]);
                if pb != k - 1 {
                    assert(names[pb] == names[k - 1]);
                }
                if a < prev.len() {
                    assert(s[a] == prev[a]);
                    let p = choose|p: int| 0 <= p < k - 1 && names[p] == #[trigger] prev[a];
                    if pa != p {
                        assert(names[pa] == names[p]);
                    }
                } else {
                    assert(s[a] == r[a - prev.len()]);
                    if pa != k - 1 {
                        assert(names[pa] == names[k - 1]);
                    }
                }
            } else {
                assert(s[a] == prev[a]);
                assert(s[b] == prev[b]);
                assert(names[pa] == prev[a]);
                assert(names[pb] == prev[b]);
            }
        }
    }
}

/// In a function whose blocks carry distinct names (such as names taken
/// from a reverse postorder), the successors of block `k` are names of
/// blocks of the function, listed in the order of those blocks' positions.
pub proof fn lemma_successors_in_block_position_order(f: FnBlocks, raw: RawFn, names: Seq<usize>, k: int)
    requires
        built_from(f, raw, names),
        raw.blocks@.len() == names.len(),
        forall|a: int, b: int| 0 <= a < b < names.len() ==> names[a] != names[b],
        0 <= k < raw.blocks@.len(),
    ensures
        forall|a: int|
            0 <= a < f.blocks@[k].suc_blocks@.len() ==> exists|j: int|
                0 <= j < f.blocks@.len() && f.blocks@[j].block_name
                    == #[trigger] f.blocks@[k].suc_blocks@[a],
        forall|a: int, b: int, ja: int, jb: int|
            #![trigger f.blocks@[ja], f.blocks@[jb], f.blocks@[k].suc_blocks@[a], f.blocks@[k].suc_blocks@[b]]
            0 <= a <= b < f.blocks@[k].suc_blocks@.len() && 0 <= ja < f.blocks@.len() && 0 <= jb
                < f.blocks@.len() && f.blocks@[ja].block_name == f.blocks@[k].suc_blocks@[a]
                && f.blocks@[jb].block_name == f.blocks@[k].suc_blocks@[b] ==> ja <= jb,
{
    let n = raw.blocks@.len();
    let pv = raw.preds.deep_view();
    assert(linked_block(f.blocks@[k], raw.blocks@[k], k, names, pv, n));
    lemma_successors_in_name_order(names, pv, names[k], n as int);
    let s = f.blocks@[k].suc_blocks@;
    assert forall|j: int| 0 <= j < f.blocks@.len() implies #[trigger] f.blocks@[j].block_name == names[j] by {
        assert(linked_block(f.blocks@[j], raw.blocks@[j], j, names, pv, n));
    }
    assert forall|a: int| 0 <= a < s.len() implies exists|j: int|
        0 <= j < f.blocks@.len() && f.blocks@[j].block_name == #[trigger] s[a] by {
        let p = choose|p: int| 0 <= p < n && names[p] == #[trigger] s[a];
        assert(f.blocks@[p].block_name == names[p]);
    }
    assert forall|a: int, b: int, ja: int, jb: int|
        #![trigger f.blocks@[ja], f.blocks@[jb], s[a], s[b]]
        0 <= a <= b < s.len() && 0 <= ja < f.blocks@.len() && 0 <= jb < f.blocks@.len()
            && f.blocks@[ja].block_name == s[a] && f.blocks@[jb].block_name
            == s[b] implies ja <= jb by {
        assert(f.blocks@[ja].block_name == names[ja]);
        assert(f.blocks@[jb].block_name == names[jb]);
        assert(names[ja] == s[a]);
        assert(names[jb] == s[b]);
    }
}

} // verus!

verus! {

/// The dump of a block, line by line: its label, then for each statement
/// `k` the numeral of `k`, `": "` and the statement, then the terminator,
/// the predecessor and successor lists, and an empty line.  Statements are
/// numbered by their position, from 0.
pub proof fn lemma_block_lines_layout(b: MyBlock)
    ensures
        block_lines(b).len() == b.statements@.len() + 5,
        block_lines(b)[0] == block_label(b.block_name as nat),
        forall|k: int|
            0 <= k < b.statements@.len() ==> #[trigger] block_lines(b)[1 + k] == decimal(k as nat)
                + ": "@ + b.statements@[k]@,
        block_lines(b)[b.statements@.len() + 1int] == "terminator "@ + b.terminator@,
        block_lines(b)[b.statements@.len() + 2int] == "preds "@ + block_list(b.pre_blocks@),
        block_lines(b)[b.statements@.len() + 3int] == "succs "@ + block_list(b.suc_blocks@),
        block_lines(b)[b.statements@.len() + 4int] == Seq::<char>::empty(),
{
    let n = b.statements@.len() as int;
    let head = seq![block_label(b.block_name as nat)] + statement_lines(b.statements@);
    assert forall|k: int| 0 <= k < n implies #[trigger] block_lines(b)[1 + k] == decimal(k as nat)
        + ": "@ + b.statements@[k]@ by {
        assert(block_lines(b)[1 + k] == head[1 + k]);
        assert(head[1 + k] == statement_lines(b.statements@)[k]);
    }
}

/// The dump of some blocks is the dumps of its parts, one after the other.
pub proof fn lemma_blocks_report_concat(a: Seq<MyBlock>, b: Seq<MyBlock>)
    ensures
        blocks_report(a + b) == blocks_report(a) + blocks_report(b),
    decreases b.len(),
{
    if b.len() == 0 {
        assert(a + b =~= a);
        assert(blocks_report(a) + blocks_report(b) =~= blocks_report(a));
    } else {
        lemma_blocks_report_concat(a, b.drop_last());
        assert((a + b).drop_last() =~= a + b.drop_last());
        assert(blocks_report(a) + blocks_report(b.drop_last()) + block_lines(b.last()) =~= blocks_report(a)
            + (blocks_report(b.drop_last()) + block_lines(b.last())));
    }
}

proof fn lemma_blocks_report_single(x: MyBlock)
    ensures
        blocks_report(seq![x]) == block_lines(x),
{
    assert(seq![x].drop_last() =~= Seq::<MyBlock>::empty());
    assert(blocks_report(seq![x]) == blocks_report(Seq::<MyBlock>::empty()) + block_lines(x));
    assert(Seq::<Seq<char>>::empty() + block_lines(x) =~= block_lines(x));
}

/// The dump of some blocks holds the lines of block `j` right after the
/// dumps of the blocks before it.
proof fn lemma_blocks_report_at(bs: Seq<MyBlock>, j: int, i: int)
    requires
        0 <= j < bs.len(),
        0 <= i < block_lines(bs[j]).len(),
    ensures
        blocks_report(bs).len() >= blocks_report(bs.take(j)).len() + block_lines(bs[j]).len(),
        blocks_report(bs)[blocks_report(bs.take(j)).len() + i] == block_lines(bs[j])[i],
{
    let before = bs.take(j);
    let rest = bs.skip(j + 1);
    assert(bs =~= (before + seq![bs[j]]) + rest);
    lemma_blocks_report_concat(before + seq![bs[j]], rest);
    lemma_blocks_report_concat(before, seq![bs[j]]);
    lemma_blocks_report_single(bs[j]);
    let front = blocks_report(before) + block_lines(bs[j]);
    assert(blocks_report(bs) == front + blocks_report(rest));
    assert(blocks_report(bs)[blocks_report(before).len() + i] == front[blocks_report(before).len() + i]);
}

/// In a function's dump, the lines of block `j` follow the quoted name, the
/// empty line and the dumps of the blocks before it; there, the line of its
/// statement `k` is the numeral of `k`, `": "` and the statement.
pub proof fn lemma_fn_report_statement_line(name: Seq<char>, bs: Seq<MyBlock>, j: int, k: int)
    requires
        0 <= j < bs.len(),
        0 <= k < bs[j].statements@.len(),
    ensures
        ({
            let at = 2 + blocks_report(bs.take(j)).len() as int;
            &&& fn_report(name, bs)[at] == block_label(bs[j].block_name as nat)
            &&& fn_report(name, bs)[at + 1 + k] == decimal(k as nat) + ": "@ + bs[j].statements@[k]@
        }),
{
    lemma_block_lines_layout(bs[j]);
    lemma_blocks_report_at(bs, j, 0);
    lemma_blocks_report_at(bs, j, 1 + k);
    let r = blocks_report(bs);
    let at = 2 + blocks_report(bs.take(j)).len() as int;
    let head = seq![debug_quoted(name), Seq::<char>::empty()];
    assert(fn_report(name, bs) == head + r);
    assert((head + r)[at] == r[at - 2]);
    assert((head + r)[at + 1 + k] == r[at - 2 + 1 + k]);
}

} // verus!
