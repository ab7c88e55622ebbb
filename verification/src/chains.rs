//! Condition chains: every path of branch decisions from the entry block
//! to a block without successors, found by a depth-first walk.

use vstd::prelude::*;

use crate::blocks::{FnBlocks, MyBlock};
use crate::text::{join, join_step, decimal, decimal_string, find_char, find_char_in, lemma_find_char_found, lemma_find_char_first};

verus! {

/// Whether the `Debug` text of a `SwitchInt` kind can be taken apart: it
/// holds a `(`, a `)` no earlier than just after it, and a `_` between
/// them.
pub open spec fn kind_parses(k: Seq<char>) -> bool {
    match (find_char(k, '('), find_char(k, ')')) {
        (Some(a), Some(b)) => a + 1 <= b && find_char(k.subrange(a + 1int, b as int), '_') is Some,
        _ => false,
    }
}

/// The variable that a `SwitchInt` tests, read from the `Debug` text of its
/// kind: between the first `(` and the first `)`, from the first `_` on
/// (`switchInt(move _3) -> ..` gives `_3`).
pub open spec fn switch_var(k: Seq<char>) -> Seq<char> {
    match (find_char(k, '('), find_char(k, ')')) {
        (Some(a), Some(b)) => {
            let inner = k.subrange(a + 1int, b as int);
            match find_char(inner, '_') {
                Some(u) => inner.subrange(u as int, inner.len() as int),
                None => Seq::empty(),
            }
        },
        _ => Seq::empty(),
    }
}

/// Reads the tested variable out of the `Debug` text of a `SwitchInt`
/// kind; `None` where the text cannot be taken apart.
pub fn parse_switch_var(kind: &str) -> (r: Option<String>)
    ensures
        r is Some <==> kind_parses(kind@),
        r matches Some(v) ==> v@ == switch_var(kind@),
{
    let open = find_char_in(kind, '(');
    let close = find_char_in(kind, ')');
    proof {
        lemma_find_char_found(kind@, '(');
        lemma_find_char_found(kind@, ')');
    }
    match (open, close) {
        (Some(a), Some(b)) => {
            if a >= b {
                return None;
            }
            let inner = kind.substring_char(a + 1, b);
            match find_char_in(inner, '_') {
                Some(u) => {
                    proof {
                        lemma_find_char_found(inner@, '_');
                    }
                    let len = inner.unicode_len();
                    Some(String::from_str(inner.substring_char(u, len)))
                },
                None => None,
            }
        },
        _ => None,
    }
}

/// The condition of a switch case: `var = value`.
pub open spec fn case_label(var: Seq<char>, value: u128) -> Seq<char> {
    var + " = "@ + decimal(value as nat)
}

/// The condition of a switch's fallback edge: `var = otherwise`.
pub open spec fn otherwise_label(var: Seq<char>) -> Seq<char> {
    var + " = otherwise"@
}

/// Whether the walk from block `i` ends, with at most `fuel` blocks on any
/// path, without leaving the blocks or meeting a switch whose text cannot
/// be taken apart.  A block without successors ends a path; a switch goes
/// on along each case and its fallback; any other block goes on along its
/// first successor.
pub open spec fn walk_ok(g: Seq<MyBlock>, i: int, fuel: nat) -> bool
    decreases fuel,
{
    if fuel == 0 || i < 0 || i >= g.len() {
        false
    } else if g[i].suc_blocks@.len() == 0 {
        true
    } else {
        match g[i].switch {
            Some(sw) => {
                &&& kind_parses(sw.kind@)
                &&& forall|t: int|
                    0 <= t < sw.targets@.len() ==> walk_ok(
                        g,
                        (#[trigger] sw.targets@[t]).1 as int,
                        (fuel - 1) as nat,
                    )
                &&& walk_ok(g, sw.otherwise as int, (fuel - 1) as nat)
            },
            None => walk_ok(g, g[i].suc_blocks@[0] as int, (fuel - 1) as nat),
        }
    }
}

/// The chains that the walk from block `i` finds, each `prefix` followed by
/// the (condition, block) steps taken: all cases of a switch in order, then
/// its fallback; `break` along the first successor of any other block.
pub open spec fn chains(g: Seq<MyBlock>, i: int, prefix: Seq<(Seq<char>, nat)>, fuel: nat) -> Seq<
    Seq<(Seq<char>, nat)>,
>
    decreases fuel, 0nat,
{
    if fuel == 0 || i < 0 || i >= g.len() {
        Seq::empty()
    } else if g[i].suc_blocks@.len() == 0 {
        seq![prefix]
    } else {
        match g[i].switch {
            Some(sw) => {
                let var = switch_var(sw.kind@);
                case_chains(g, sw.targets@, var, prefix, (fuel - 1) as nat, sw.targets@.len())
                    + chains(
                    g,
                    sw.otherwise as int,
                    prefix.push((otherwise_label(var), sw.otherwise as nat)),
                    (fuel - 1) as nat,
                )
            },
            None => {
                let next = g[i].suc_blocks@[0];
                chains(g, next as int, prefix.push(("break"@, next as nat)), (fuel - 1) as nat)
            },
        }
    }
}

/// The chains through the first `k` cases of a switch on `var`.
pub open spec fn case_chains(
    g: Seq<MyBlock>,
    targets: Seq<(u128, usize)>,
    var: Seq<char>,
    prefix: Seq<(Seq<char>, nat)>,
    fuel: nat,
    k: nat,
) -> Seq<Seq<(Seq<char>, nat)>>
    decreases fuel, k + 1,
{
    if k == 0 {
        Seq::empty()
    } else {
        let (value, target) = targets[k - 1];
        case_chains(g, targets, var, prefix, fuel, (k - 1) as nat) + chains(
            g,
            target as int,
            prefix.push((case_label(var, value), target as nat)),
            fuel,
        )
    }
}

/// A step as the chain stores it: the condition and the block's number.
pub open spec fn render_step(s: (Seq<char>, nat)) -> (Seq<char>, Seq<char>) {
    (s.0, decimal(s.1))
}

pub open spec fn render_chain(c: Seq<(Seq<char>, nat)>) -> Seq<(Seq<char>, Seq<char>)> {
    c.map_values(|s: (Seq<char>, nat)| render_step(s))
}

pub open spec fn render_chains(cs: Seq<Seq<(Seq<char>, nat)>>) -> Seq<Seq<(Seq<char>, Seq<char>)>> {
    cs.map_values(|c: Seq<(Seq<char>, nat)>| render_chain(c))
}

/// The chain that the walk starts with: `break` into block 0.
pub open spec fn entry_chain() -> Seq<(Seq<char>, nat)> {
    seq![("break"@, 0nat)]
}

/// Whether the walk from the entry block ends.
pub open spec fn walk_terminates(g: Seq<MyBlock>) -> bool {
    exists|f: nat| walk_ok(g, 0, f)
}

/// A bound on the length of the walk's paths, where there is one.
pub open spec fn walk_fuel(g: Seq<MyBlock>) -> nat {
    choose|f: nat| walk_ok(g, 0, f)
}

/// All condition chains of a function, from its entry block.
pub open spec fn all_chains(g: Seq<MyBlock>) -> Seq<Seq<(Seq<char>, nat)>> {
    chains(g, 0, entry_chain(), walk_fuel(g))
}

proof fn lemma_render_push(c: Seq<(Seq<char>, nat)>, s: (Seq<char>, nat))
    ensures
        render_chain(c.push(s)) == render_chain(c).push(render_step(s)),
{
    assert(render_chain(c.push(s)) =~= render_chain(c).push(render_step(s)));
}

proof fn lemma_render_concat(a: Seq<Seq<(Seq<char>, nat)>>, b: Seq<Seq<(Seq<char>, nat)>>)
    ensures
        render_chains(a + b) == render_chains(a) + render_chains(b),
{
    assert(render_chains(a + b) =~= render_chains(a) + render_chains(b));
}

/// A copy of a chain.
fn copy_chain(c: &Vec<(String, String)>) -> (r: Vec<(String, String)>)
    ensures
        r.deep_view() == c.deep_view(),
{
    let mut r: Vec<(String, String)> = Vec::new();
    let mut i: usize = 0;
    while i < c.len()
        invariant
            0 <= i <= c.len(),
            r@.len() == i,
            r.deep_view() == c.deep_view().take(i as int),
        decreases c.len() - i,
    {
        let a = c[i].0.clone();
        let b = c[i].1.clone();
        r.push((a, b));
        proof {
            assert(r.deep_view() =~= c.deep_view().take(i + 1));
        }
        i = i + 1;
    }
    proof {
        assert(c.deep_view().take(c.len() as int) =~= c.deep_view());
    }
    r
}

/// A copy of a switch's case list.
fn copy_targets(t: &Vec<(u128, usize)>) -> (r: Vec<(u128, usize)>)
    ensures
        r@ == t@,
{
    let mut r: Vec<(u128, usize)> = Vec::new();
    let mut i: usize = 0;
    while i < t.len()
        invariant
            0 <= i <= t.len(),
            r@ == t@.take(i as int),
        decreases t.len() - i,
    {
        r.push(t[i]);
        proof {
            assert(r@ =~= t@.take(i + 1));
        }
        i = i + 1;
    }
    proof {
        assert(t@.take(t.len() as int) =~= t@);
    }
    r
}

/// `chain` with one more step: condition `label`, block `target`.
fn extend_chain(chain: &Vec<(String, String)>, label: String, target: usize) -> (r: Vec<(String, String)>)
    ensures
        r.deep_view() == chain.deep_view().push((label@, decimal(target as nat))),
{
    let mut r = copy_chain(chain);
    let t = decimal_string(target as u128);
    r.push((label, t));
    proof {
        assert(r.deep_view() =~= chain.deep_view().push((label@, decimal(target as nat))));
    }
    r
}

impl FnBlocks {
    /// Walks from block `i` with the chain so far, and appends every chain
    /// that ends at a block without successors.
    fn dfs(
        &mut self,
        i: usize,
        cond_chain: Vec<(String, String)>,
        Ghost(path): Ghost<Seq<(Seq<char>, nat)>>,
        Ghost(fuel): Ghost<nat>,
    )
        requires
            walk_ok(old(self).blocks@, i as int, fuel),
            cond_chain.deep_view() == render_chain(path),
        ensures
            final(self).blocks == old(self).blocks,
            final(self).fn_name == old(self).fn_name,
            final(self).cond_chains.deep_view() == old(self).cond_chains.deep_view()
                + render_chains(chains(old(self).blocks@, i as int, path, fuel)),
        decreases fuel,
    {
        let ghost g = self.blocks@;
        let ghost c0 = self.cond_chains.deep_view();
        if self.blocks[i].suc_blocks.len() == 0 {
            self.cond_chains.push(cond_chain);
            proof {
                assert(self.cond_chains.deep_view() =~= c0 + render_chains(seq![path]));
            }
            return;
        }
        let switch = match &self.blocks[i].switch {
            Some(sw) => Some((parse_switch_var(sw.kind.as_str()).unwrap(), copy_targets(&sw.targets), sw.otherwise)),
            None => None,
        };
        if let Some((var, targets, otherwise)) = switch {
            let ghost sw0 = g[i as int].switch.unwrap();
            let ghost var_v = var@;
            let mut t: usize = 0;
            while t < targets.len()
                invariant
                    self.blocks == old(self).blocks,
                    self.fn_name == old(self).fn_name,
                    g == self.blocks@,
                    0 <= i < g.len(),
                    fuel > 0,
                    g[i as int].switch == Some(sw0),
                    g[i as int].suc_blocks@.len() > 0,
                    walk_ok(g, i as int, fuel),
                    targets@ == sw0.targets@,
                    otherwise == sw0.otherwise,
                    var@ == var_v,
                    var_v == switch_var(sw0.kind@),
                    0 <= t <= targets@.len(),
                    cond_chain.deep_view() == render_chain(path),
                    self.cond_chains.deep_view() == c0 + render_chains(
                        case_chains(g, sw0.targets@, var_v, path, (fuel - 1) as nat, t as nat),
                    ),
                decreases targets@.len() - t,
            {
                let (value, target) = targets[t];
                let mut label = var.clone();
                label.append(" = ");
                let vs = decimal_string(value);
                label.append(vs.as_str());
                let next = extend_chain(&cond_chain, label, target);
                let ghost step = (case_label(var_v, value), target as nat);
                proof {
                    lemma_render_push(path, step);
                    assert(walk_ok(g, sw0.targets@[t as int].1 as int, (fuel - 1) as nat));
                }
                self.dfs(target, next, Ghost(path.push(step)), Ghost((fuel - 1) as nat));
                proof {
                    let cc = case_chains(g, sw0.targets@, var_v, path, (fuel - 1) as nat, t as nat);
                    let nc = chains(g, target as int, path.push(step), (fuel - 1) as nat);
                    assert(case_chains(g, sw0.targets@, var_v, path, (fuel - 1) as nat, (t + 1) as nat)
                        == cc + nc);
                    lemma_render_concat(cc, nc);
                    assert(self.cond_chains.deep_view() =~= c0 + render_chains(cc + nc));
                }
                t = t + 1;
            }
            let mut label = var.clone();
            label.append(" = otherwise");
            let next = extend_chain(&cond_chain, label, otherwise);
            let ghost step = (otherwise_label(var_v), otherwise as nat);
            proof {
                lemma_render_push(path, step);
            }
            self.dfs(otherwise, next, Ghost(path.push(step)), Ghost((fuel - 1) as nat));
            proof {
                let cc = case_chains(g, sw0.targets@, var_v, path, (fuel - 1) as nat, sw0.targets@.len());
                let nc = chains(g, otherwise as int, path.push(step), (fuel - 1) as nat);
                lemma_render_concat(cc, nc);
                assert(self.cond_chains.deep_view() =~= c0 + render_chains(cc + nc));
            }
        } else {
            let next_block = self.blocks[i].suc_blocks[0];
            let label = String::from_str("break");
            let next = extend_chain(&cond_chain, label, next_block);
            let ghost step = ("break"@, next_block as nat);
            proof {
                lemma_render_push(path, step);
            }
            self.dfs(next_block, next, Ghost(path.push(step)), Ghost((fuel - 1) as nat));
        }
    }
}

} // verus!

verus! {

/// The conditions of a chain joined by `->`, leaving out `break` steps.
pub open spec fn chain_text(c: Seq<(Seq<char>, Seq<char>)>) -> Seq<char>
    decreases c.len(),
{
    if c.len() == 0 {
        Seq::empty()
    } else {
        let prev = chain_text(c.drop_last());
        if c.last().0 == "break"@ {
            prev
        } else {
            join_step(prev, c.last().0, "->"@)
        }
    }
}

/// The blocks of a chain joined by spaces.
pub open spec fn flow_text(c: Seq<(Seq<char>, Seq<char>)>) -> Seq<char>
    decreases c.len(),
{
    if c.len() == 0 {
        Seq::empty()
    } else {
        join_step(flow_text(c.drop_last()), c.last().1, " "@)
    }
}

/// The report of the chains: for chain `i`, the line `CondChain i`, its
/// conditions, its blocks, and an empty line.
pub open spec fn chain_report(cs: Seq<Seq<(Seq<char>, Seq<char>)>>) -> Seq<Seq<char>>
    decreases cs.len(),
{
    if cs.len() == 0 {
        Seq::empty()
    } else {
        let i = (cs.len() - 1) as nat;
        chain_report(cs.drop_last()) + seq![
            "CondChain "@ + decimal(i),
            chain_text(cs.last()),
            flow_text(cs.last()),
            Seq::<char>::empty(),
        ]
    }
}

/// The two report lines of one chain: its conditions and its blocks.
fn chain_lines(c: &Vec<(String, String)>) -> (r: (String, String))
    ensures
        r.0@ == chain_text(c.deep_view()),
        r.1@ == flow_text(c.deep_view()),
{
    let ghost cv = c.deep_view();
    let brk = String::from_str("break");
    let mut chain = String::new();
    let mut cfgflow = String::new();
    let mut i: usize = 0;
    while i < c.len()
        invariant
            cv == c.deep_view(),
            brk@ == "break"@,
            0 <= i <= c.len(),
            chain@ == chain_text(cv.take(i as int)),
            cfgflow@ == flow_text(cv.take(i as int)),
        decreases c.len() - i,
    {
        let s1 = &c[i].0;
        let s2 = &c[i].1;
        proof {
            assert(cv.take(i + 1).drop_last() =~= cv.take(i as int));
            assert(cv[i as int] == (s1@, s2@));
        }
        if !(*s1 == brk) {
            if chain.unicode_len() == 0 {
                chain = s1.clone();
            } else {
                chain.append("->");
                chain.append(s1.as_str());
            }
        }
        if cfgflow.unicode_len() == 0 {
            cfgflow = s2.clone();
        } else {
            cfgflow.append(" ");
            cfgflow.append(s2.as_str());
        }
        i = i + 1;
    }
    proof {
        assert(cv.take(c.len() as int) =~= cv);
    }
    (chain, cfgflow)
}

impl FnBlocks {
    /// Finds the condition chains of the function, appends them to
    /// `cond_chains`, and gives the report of all chains held: for each,
    /// `CondChain i`, its conditions joined by `->`, its blocks joined by
    /// spaces, and an empty line.
    pub fn cond_chain_cout(&mut self) -> (lines: Vec<String>)
        requires
            walk_terminates(old(self).blocks@),
        ensures
            final(self).blocks == old(self).blocks,
            final(self).fn_name == old(self).fn_name,
            final(self).cond_chains.deep_view() == old(self).cond_chains.deep_view()
                + render_chains(all_chains(old(self).blocks@)),
            lines.deep_view() == chain_report(final(self).cond_chains.deep_view()),
            final(self).cond_chains@.len() == old(self).cond_chains@.len() + all_chains(
                old(self).blocks@,
            ).len(),
            forall|m: int, t: int|
                0 <= m < all_chains(old(self).blocks@).len() && 0 <= t < all_chains(
                    old(self).blocks@,
                )[m].len() ==> {
                    &&& final(self).cond_chains.deep_view()[old(self).cond_chains@.len() + m].len()
                        == all_chains(old(self).blocks@)[m].len()
                    &&& final(self).cond_chains.deep_view()[old(self).cond_chains@.len() + m][t] == (
                        (#[trigger] all_chains(old(self).blocks@)[m][t]).0,
                        decimal(all_chains(old(self).blocks@)[m][t].1),
                    )
                },
    {
        let ghost g0 = self.blocks@;
        let ghost n0 = self.cond_chains@.len();
        let ghost fuel = walk_fuel(self.blocks@);
        let mut init: Vec<(String, String)> = Vec::new();
        let zero = decimal_string(0);
        init.push((String::from_str("break"), zero));
        proof {
            assert(init.deep_view() =~= render_chain(entry_chain()));
        }
        self.dfs(0, init, Ghost(entry_chain()), Ghost(fuel));
        let ghost cs = self.cond_chains.deep_view();
        proof {
            let ac = all_chains(g0);
            assert(cs.len() == self.cond_chains@.len());
            assert forall|m: int, t: int| 0 <= m < ac.len() && 0 <= t < ac[m].len() implies {
                &&& cs[n0 + m].len() == ac[m].len()
                &&& cs[n0 + m][t] == ((#[trigger] ac[m][t]).0, decimal(ac[m][t].1))
            } by {
                assert(cs[n0 + m] == render_chains(ac)[m]);
                assert(render_chains(ac)[m] == render_chain(ac[m]));
            }
        }
        let mut lines: Vec<String> = Vec::new();
        let mut i: usize = 0;
        while i < self.cond_chains.len()
            invariant
                cs == self.cond_chains.deep_view(),
                0 <= i <= cs.len(),
                lines.deep_view() == chain_report(cs.take(i as int)),
            decreases cs.len() - i,
        {
            let mut head = String::from_str("CondChain ");
            let num = decimal_string(i as u128);
            head.append(num.as_str());
            let (chain, cfgflow) = chain_lines(&self.cond_chains[i]);
            lines.push(head);
            lines.push(chain);
            lines.push(cfgflow);
            lines.push(String::new());
            proof {
                assert(cs.take(i + 1).drop_last() =~= cs.take(i as int));
                assert(cs[i as int] == self.cond_chains@[i as int].deep_view());
                assert(lines.deep_view() =~= chain_report(cs.take(i + 1)));
            }
            i = i + 1;
        }
        proof {
            assert(cs.take(cs.len() as int) =~= cs);
        }
        lines
    }
}

} // verus!

verus! {

impl FnBlocks {
    /// Decides `walk_ok` from block `i` with `fuel`.
    fn walk_ok_from(&self, i: usize, fuel: usize) -> (r: bool)
        ensures
            r == walk_ok(self.blocks@, i as int, fuel as nat),
        decreases fuel,
    {
        if fuel == 0 || i >= self.blocks.len() {
            return false;
        }
        let b = &self.blocks[i];
        if b.suc_blocks.len() == 0 {
            return true;
        }
        match &b.switch {
            Some(sw) => {
                if parse_switch_var(sw.kind.as_str()).is_none() {
                    return false;
                }
                let mut t: usize = 0;
                while t < sw.targets.len()
                    invariant
                        0 <= t <= sw.targets@.len(),
                        fuel > 0,
                        0 <= i < self.blocks@.len(),
                        self.blocks@[i as int].switch == Some(*sw),
                        self.blocks@[i as int].suc_blocks@.len() > 0,
                        forall|u: int|
                            0 <= u < t ==> walk_ok(
                                self.blocks@,
                                (#[trigger] sw.targets@[u]).1 as int,
                                (fuel - 1) as nat,
                            ),
                    decreases sw.targets@.len() - t,
                {
                    if !self.walk_ok_from(sw.targets[t].1, fuel - 1) {
                        assert(!walk_ok(self.blocks@, sw.targets@[t as int].1 as int, (fuel - 1) as nat));
                        return false;
                    }
                    t = t + 1;
                }
                self.walk_ok_from(sw.otherwise, fuel - 1)
            },
            None => self.walk_ok_from(b.suc_blocks[0], fuel - 1),
        }
    }

    /// Whether the walk from the entry block ends: no path from the entry
    /// runs into a cycle, leaves the blocks, or meets a switch whose text
    /// cannot be taken apart.  Where this holds, `cond_chain_cout` may be
    /// called.
    pub fn chains_terminate(&self) -> (r: bool)
        ensures
            r == walk_terminates(self.blocks@),
    {
        let r = self.walk_ok_from(0, self.blocks.len());
        proof {
            if walk_terminates(self.blocks@) {
                lemma_walk_bound(self.blocks@);
            }
        }
        r
    }
}

} // verus!

verus! {

/// More fuel changes nothing once the walk ends.
proof fn lemma_fuel_mono(g: Seq<MyBlock>, i: int, p: Seq<(Seq<char>, nat)>, f1: nat, f2: nat)
    requires
        walk_ok(g, i, f1),
        f1 <= f2,
    ensures
        walk_ok(g, i, f2),
        chains(g, i, p, f1) == chains(g, i, p, f2),
    decreases f1, 0nat,
{
    if g[i].suc_blocks@.len() > 0 {
        match g[i].switch {
            Some(sw) => {
                let var = switch_var(sw.kind@);
                lemma_case_fuel_mono(g, sw.targets@, var, p, (f1 - 1) as nat, (f2 - 1) as nat, sw.targets@.len());
                lemma_fuel_mono(
                    g,
                    sw.otherwise as int,
                    p.push((otherwise_label(var), sw.otherwise as nat)),
                    (f1 - 1) as nat,
                    (f2 - 1) as nat,
                );
                assert forall|t: int| 0 <= t < sw.targets@.len() implies walk_ok(
                    g,
                    (#[trigger] sw.targets@[t]).1 as int,
                    (f2 - 1) as nat,
                ) by {
                    lemma_fuel_mono(g, sw.targets@[t].1 as int, p, (f1 - 1) as nat, (f2 - 1) as nat);
                }
            },
            None => {
                let next = g[i].suc_blocks@[0];
                lemma_fuel_mono(g, next as int, p.push(("break"@, next as nat)), (f1 - 1) as nat, (f2 - 1) as nat);
            },
        }
    }
}

proof fn lemma_case_fuel_mono(
    g: Seq<MyBlock>,
    targets: Seq<(u128, usize)>,
    var: Seq<char>,
    p: Seq<(Seq<char>, nat)>,
    f1: nat,
    f2: nat,
    k: nat,
)
    requires
        k <= targets.len(),
        f1 <= f2,
        forall|t: int| 0 <= t < targets.len() ==> walk_ok(g, (#[trigger] targets[t]).1 as int, f1),
    ensures
        case_chains(g, targets, var, p, f1, k) == case_chains(g, targets, var, p, f2, k),
    decreases f1, k + 1,
{
    if k > 0 {
        lemma_case_fuel_mono(g, targets, var, p, f1, f2, (k - 1) as nat);
        let (value, target) = targets[k - 1];
        lemma_fuel_mono(g, target as int, p.push((case_label(var, value), target as nat)), f1, f2);
    }
}

/// The chains do not depend on which bound the walk is taken with: any
/// fuel with which the walk from the entry ends gives `all_chains`.
pub proof fn lemma_chains_fuel_independent(g: Seq<MyBlock>, f: nat)
    requires
        walk_ok(g, 0, f),
    ensures
        walk_terminates(g),
        all_chains(g) == chains(g, 0, entry_chain(), f),
{
    let f0 = walk_fuel(g);
    assert(walk_ok(g, 0, f0));
    if f0 <= f {
        lemma_fuel_mono(g, 0, entry_chain(), f0, f);
    } else {
        lemma_fuel_mono(g, 0, entry_chain(), f, f0);
    }
}

/// Block `u` has no successors.
pub open spec fn is_exit(g: Seq<MyBlock>, u: int) -> bool {
    0 <= u < g.len() && g[u].suc_blocks@.len() == 0
}

/// The walk goes from block `u` to block `v` under condition `label`: along
/// a case or the fallback of a switch, or along the first successor of any
/// other block with successors.
pub open spec fn edge(g: Seq<MyBlock>, u: int, label: Seq<char>, v: nat) -> bool {
    &&& 0 <= u < g.len()
    &&& g[u].suc_blocks@.len() > 0
    &&& match g[u].switch {
        Some(sw) => {
            ||| exists|t: int|
                0 <= t < sw.targets@.len() && (#[trigger] sw.targets@[t]).1 == v && label
                    == case_label(switch_var(sw.kind@), sw.targets@[t].0)
            ||| v == sw.otherwise && label == otherwise_label(switch_var(sw.kind@))
        },
        None => v == g[u].suc_blocks@[0] && label == "break"@,
    }
}

/// `c` goes on from `prefix`, step by step along edges of the walk, to a
/// block without successors.
pub open spec fn extends_to_exit(g: Seq<MyBlock>, prefix: Seq<(Seq<char>, nat)>, c: Seq<(Seq<char>, nat)>) -> bool {
    &&& prefix.len() <= c.len()
    &&& c.take(prefix.len() as int) == prefix
    &&& forall|t: int|
        prefix.len() - 1 <= t < c.len() - 1 ==> edge(g, c[t].1 as int, c[t + 1].0, #[trigger] c[t + 1].1)
    &&& is_exit(g, c.last().1 as int)
}

proof fn lemma_extends_step(
    g: Seq<MyBlock>,
    p: Seq<(Seq<char>, nat)>,
    step: (Seq<char>, nat),
    c: Seq<(Seq<char>, nat)>,
)
    requires
        p.len() > 0,
        edge(g, p.last().1 as int, step.0, step.1),
        extends_to_exit(g, p.push(step), c),
    ensures
        extends_to_exit(g, p, c),
{
    let q = p.push(step);
    assert(c.take(q.len() as int)[p.len() as int] == step);
    assert(c.take(p.len() as int) =~= p) by {
        assert forall|j: int| 0 <= j < p.len() implies c.take(p.len() as int)[j] == p[j] by {
            assert(c.take(q.len() as int)[j] == q[j]);
        }
    }
    assert forall|t: int| p.len() - 1 <= t < c.len() - 1 implies edge(g, c[t].1 as int, c[t + 1].0, #[trigger] c[t + 1].1) by {
        if t == p.len() - 1 {
            assert(c[t] == c.take(q.len() as int)[t]);
            assert(c[t + 1] == c.take(q.len() as int)[t + 1]);
        }
    }
}

/// Every chain that the walk from block `i` finds goes on from the prefix
/// to an exit.
proof fn lemma_chains_sound(g: Seq<MyBlock>, i: int, p: Seq<(Seq<char>, nat)>, fuel: nat)
    requires
        p.len() > 0,
        p.last().1 == i,
    ensures
        forall|m: int|
            0 <= m < chains(g, i, p, fuel).len() ==> extends_to_exit(g, p, #[trigger] chains(g, i, p, fuel)[m]),
    decreases fuel, 0nat,
{
    let r = chains(g, i, p, fuel);
    if fuel == 0 || i < 0 || i >= g.len() {
    } else if g[i].suc_blocks@.len() == 0 {
        assert(p.take(p.len() as int) =~= p);
    } else {
        match g[i].switch {
            Some(sw) => {
                let var = switch_var(sw.kind@);
                let k = sw.targets@.len();
                let cc = case_chains(g, sw.targets@, var, p, (fuel - 1) as nat, k);
                let step = (otherwise_label(var), sw.otherwise as nat);
                let oc = chains(g, sw.otherwise as int, p.push(step), (fuel - 1) as nat);
                lemma_case_chains_sound(g, i, sw.targets@, var, p, (fuel - 1) as nat, k);
                lemma_chains_sound(g, sw.otherwise as int, p.push(step), (fuel - 1) as nat);
                assert(r == cc + oc);
                assert forall|m: int| 0 <= m < r.len() implies extends_to_exit(g, p, #[trigger] r[m]) by {
                    if m < cc.len() {
                        assert(r[m] == cc[m]);
                    } else {
                        assert(r[m] == oc[m - cc.len()]);
                        lemma_extends_step(g, p, step, oc[m - cc.len()]);
                    }
                }
            },
            None => {
                let next = g[i].suc_blocks@[0];
                let step = ("break"@, next as nat);
                lemma_chains_sound(g, next as int, p.push(step), (fuel - 1) as nat);
                assert(r == chains(g, next as int, p.push(step), (fuel - 1) as nat));
                assert forall|m: int| 0 <= m < r.len() implies extends_to_exit(g, p, #[trigger] r[m]) by {
                    lemma_extends_step(g, p, step, r[m]);
                }
            },
        }
    }
}

proof fn lemma_case_chains_sound(
    g: Seq<MyBlock>,
    i: int,
    targets: Seq<(u128, usize)>,
    var: Seq<char>,
    p: Seq<(Seq<char>, nat)>,
    fuel: nat,
    k: nat,
)
    requires
        p.len() > 0,
        p.last().1 == i,
        0 <= i < g.len(),
        g[i].suc_blocks@.len() > 0,
        g[i].switch matches Some(sw) && sw.targets@ == targets && var == switch_var(sw.kind@),
        k <= targets.len(),
    ensures
        forall|m: int|
            0 <= m < case_chains(g, targets, var, p, fuel, k).len() ==> extends_to_exit(
                g,
                p,
                #[trigger] case_chains(g, targets, var, p, fuel, k)[m],
            ),
    decreases fuel, k + 1,
{
    if k > 0 {
        let prev = case_chains(g, targets, var, p, fuel, (k - 1) as nat);
        let (value, target) = targets[k - 1];
        let step = (case_label(var, value), target as nat);
        let tc = chains(g, target as int, p.push(step), fuel);
        lemma_case_chains_sound(g, i, targets, var, p, fuel, (k - 1) as nat);
        lemma_chains_sound(g, target as int, p.push(step), fuel);
        let r = case_chains(g, targets, var, p, fuel, k);
        assert(r == prev + tc);
        assert(edge(g, i, step.0, step.1)) by {
            let sw = g[i].switch.unwrap();
            assert(sw.targets@[k - 1].1 == target);
        }
        assert forall|m: int| 0 <= m < r.len() implies extends_to_exit(g, p, #[trigger] r[m]) by {
            if m < prev.len() {
                assert(r[m] == prev[m]);
            } else {
                assert(r[m] == tc[m - prev.len()]);
                lemma_extends_step(g, p, step, tc[m - prev.len()]);
            }
        }
    }
}

/// Every condition chain is a path of the walk: it starts with `break` into
/// block 0, each further step follows an edge from the block before it,
/// under that edge's condition, and it ends at a block without successors.
pub proof fn lemma_chains_are_exit_paths(g: Seq<MyBlock>)
    requires
        walk_terminates(g),
    ensures
        forall|m: int|
            0 <= m < all_chains(g).len() ==> {
                let c = #[trigger] all_chains(g)[m];
                &&& c.len() >= 1
                &&& c[0] == ("break"@, 0nat)
                &&& forall|t: int|
                    0 <= t < c.len() - 1 ==> edge(g, c[t].1 as int, c[t + 1].0, #[trigger] c[t + 1].1)
                &&& is_exit(g, c.last().1 as int)
            },
{
    lemma_chains_sound(g, 0, entry_chain(), walk_fuel(g));
    assert forall|m: int| 0 <= m < all_chains(g).len() implies {
        let c = #[trigger] all_chains(g)[m];
        &&& c.len() >= 1
        &&& c[0] == ("break"@, 0nat)
        &&& forall|t: int|
            0 <= t < c.len() - 1 ==> edge(g, c[t].1 as int, c[t + 1].0, #[trigger] c[t + 1].1)
        &&& is_exit(g, c.last().1 as int)
    } by {
        let c = all_chains(g)[m];
        assert(extends_to_exit(g, entry_chain(), c));
        assert(c[0] == c.take(1)[0]);
    }
}

} // verus!

verus! {

/// The blocks from which the walk ends within `fuel`.
pub open spec fn ending_within(g: Seq<MyBlock>, fuel: nat) -> Set<int> {
    Set::new(|i: int| 0 <= i < g.len() && walk_ok(g, i, fuel))
}

/// One more unit of fuel lets no further block end.
pub open spec fn stable_at(g: Seq<MyBlock>, k: nat) -> bool {
    forall|i: int| #[trigger] walk_ok(g, i, k + 1) ==> walk_ok(g, i, k)
}

proof fn lemma_stable_next(g: Seq<MyBlock>, k: nat)
    requires
        stable_at(g, k),
    ensures
        stable_at(g, k + 1),
{
    assert forall|i: int| #[trigger] walk_ok(g, i, k + 2) implies walk_ok(g, i, k + 1) by {
        if g[i].suc_blocks@.len() > 0 {
            match g[i].switch {
                Some(sw) => {
                    assert forall|t: int| 0 <= t < sw.targets@.len() implies walk_ok(
                        g,
                        (#[trigger] sw.targets@[t]).1 as int,
                        k,
                    ) by {
                        assert(walk_ok(g, sw.targets@[t].1 as int, k + 1));
                    }
                    assert(walk_ok(g, sw.otherwise as int, k + 1));
                },
                None => {
                    assert(walk_ok(g, g[i].suc_blocks@[0] as int, k + 1));
                },
            }
        }
    }
}

proof fn lemma_stable_forever(g: Seq<MyBlock>, k: nat, f: nat, i: int)
    requires
        stable_at(g, k),
        k <= f,
        walk_ok(g, i, f),
    ensures
        walk_ok(g, i, k),
    decreases f - k,
{
    if f > k {
        let fm = (f - 1) as nat;
        lemma_stable_up_to(g, k, fm);
        assert(fm + 1 == f);
        assert(walk_ok(g, i, fm + 1));
        lemma_stable_forever(g, k, (f - 1) as nat, i);
    }
}

proof fn lemma_stable_up_to(g: Seq<MyBlock>, k: nat, f: nat)
    requires
        stable_at(g, k),
        k <= f,
    ensures
        stable_at(g, f),
    decreases f - k,
{
    if f > k {
        lemma_stable_up_to(g, k, (f - 1) as nat);
        lemma_stable_next(g, (f - 1) as nat);
    }
}

proof fn lemma_growth(g: Seq<MyBlock>, k: nat)
    requires
        forall|j: nat| j < k ==> !#[trigger] stable_at(g, j),
    ensures
        ending_within(g, k).finite(),
        ending_within(g, k).len() >= k,
    decreases k,
{
    vstd::set_lib::lemma_int_range(0, g.len() as int);
    assert(ending_within(g, k).subset_of(vstd::set_lib::set_int_range(0, g.len() as int)));
    vstd::set_lib::lemma_len_subset(ending_within(g, k), vstd::set_lib::set_int_range(0, g.len() as int));
    if k > 0 {
        lemma_growth(g, (k - 1) as nat);
        assert(!stable_at(g, (k - 1) as nat));
        let i = choose|i: int| #[trigger] walk_ok(g, i, k) && !walk_ok(g, i, (k - 1) as nat);
        let prev = ending_within(g, (k - 1) as nat);
        assert(0 <= i < g.len());
        assert forall|j: int| prev.contains(j) implies ending_within(g, k).contains(j) by {
            lemma_fuel_mono(g, j, Seq::empty(), (k - 1) as nat, k);
        }
        assert(prev.insert(i).subset_of(ending_within(g, k)));
        assert(!prev.contains(i));
        vstd::set_lib::lemma_len_subset(prev.insert(i), ending_within(g, k));
    }
}

/// Where the walk from the entry ends at all, it ends with at most one
/// block per block of the function on each path: no path repeats a block.
pub proof fn lemma_walk_bound(g: Seq<MyBlock>)
    requires
        walk_terminates(g),
    ensures
        walk_ok(g, 0, g.len() as nat),
{
    let n = g.len();
    let f = walk_fuel(g);
    assert(walk_ok(g, 0, f));
    let k: nat = if exists|j: nat| j <= n && #[trigger] stable_at(g, j) {
        choose|j: nat| j <= n && #[trigger] stable_at(g, j)
    } else {
        lemma_growth(g, n);
        let all = vstd::set_lib::set_int_range(0, n as int);
        vstd::set_lib::lemma_int_range(0, n as int);
        assert(ending_within(g, n).subset_of(all));
        vstd::set_lib::lemma_len_subset(ending_within(g, n), all);
        vstd::set_lib::lemma_subset_equality(ending_within(g, n), all);
        assert forall|i: int| #[trigger] walk_ok(g, i, n + 1) implies walk_ok(g, i, n) by {
            assert(all.contains(i));
            assert(ending_within(g, n).contains(i));
        }
        assert(stable_at(g, n));
        n
    };
    assert(k <= n && stable_at(g, k));
    if f <= n {
        lemma_fuel_mono(g, 0, Seq::empty(), f, n);
    } else {
        lemma_stable_forever(g, k, f, 0);
        lemma_fuel_mono(g, 0, Seq::empty(), k, n);
    }
}

} // verus!

verus! {

proof fn lemma_extends_unstep(g: Seq<MyBlock>, p: Seq<(Seq<char>, nat)>, c: Seq<(Seq<char>, nat)>)
    requires
        p.len() > 0,
        extends_to_exit(g, p, c),
        c.len() > p.len(),
    ensures
        edge(g, p.last().1 as int, c[p.len() as int].0, c[p.len() as int].1),
        extends_to_exit(g, p.push(c[p.len() as int]), c),
{
    let q = p.push(c[p.len() as int]);
    assert(c[p.len() - 1] == c.take(p.len() as int)[p.len() - 1]);
    let t = p.len() - 1;
    assert(t + 1 == p.len());
    assert(edge(g, c[t].1 as int, c[t + 1].0, c[t + 1].1));
    assert(c.take(q.len() as int) =~= q) by {
        assert forall|j: int| 0 <= j < p.len() implies c.take(q.len() as int)[j] == q[j] by {
            assert(c.take(p.len() as int)[j] == p[j]);
        }
    }
}

proof fn lemma_case_chains_include(
    g: Seq<MyBlock>,
    targets: Seq<(u128, usize)>,
    var: Seq<char>,
    p: Seq<(Seq<char>, nat)>,
    fuel: nat,
    k: nat,
    t: int,
    c: Seq<(Seq<char>, nat)>,
)
    requires
        0 <= t < k <= targets.len(),
        chains(
            g,
            targets[t].1 as int,
            p.push((case_label(var, targets[t].0), targets[t].1 as nat)),
            fuel,
        ).contains(c),
    ensures
        case_chains(g, targets, var, p, fuel, k).contains(c),
    decreases k,
{
    let prev = case_chains(g, targets, var, p, fuel, (k - 1) as nat);
    let (value, target) = targets[k - 1];
    let tc = chains(g, target as int, p.push((case_label(var, value), target as nat)), fuel);
    assert(case_chains(g, targets, var, p, fuel, k) == prev + tc);
    if t == k - 1 {
        let m = choose|m: int| 0 <= m < tc.len() && tc[m] == c;
        assert((prev + tc)[prev.len() + m] == c);
    } else {
        lemma_case_chains_include(g, targets, var, p, fuel, (k - 1) as nat, t, c);
        let m = choose|m: int| 0 <= m < prev.len() && prev[m] == c;
        assert((prev + tc)[m] == c);
    }
}

proof fn lemma_chains_complete(
    g: Seq<MyBlock>,
    i: int,
    p: Seq<(Seq<char>, nat)>,
    fuel: nat,
    c: Seq<(Seq<char>, nat)>,
)
    requires
        walk_ok(g, i, fuel),
        p.len() > 0,
        p.last().1 == i,
        extends_to_exit(g, p, c),
    ensures
        chains(g, i, p, fuel).contains(c),
    decreases c.len() - p.len(),
{
    let r = chains(g, i, p, fuel);
    if c.len() == p.len() {
        assert(c =~= c.take(p.len() as int));
        assert(c.last() == p.last());
        assert(r == seq![p]);
        assert(r[0] == c);
    } else {
        lemma_extends_unstep(g, p, c);
        let step = c[p.len() as int];
        match g[i].switch {
            Some(sw) => {
                let var = switch_var(sw.kind@);
                let k = sw.targets@.len();
                let cc = case_chains(g, sw.targets@, var, p, (fuel - 1) as nat, k);
                let ostep = (otherwise_label(var), sw.otherwise as nat);
                let oc = chains(g, sw.otherwise as int, p.push(ostep), (fuel - 1) as nat);
                assert(r == cc + oc);
                if exists|t: int|
                    0 <= t < sw.targets@.len() && (#[trigger] sw.targets@[t]).1 == step.1 && step.0
                        == case_label(var, sw.targets@[t].0) {
                    let t = choose|t: int|
                        0 <= t < sw.targets@.len() && (#[trigger] sw.targets@[t]).1 == step.1 && step.0
                            == case_label(var, sw.targets@[t].0);
                    assert(step == (case_label(var, sw.targets@[t].0), sw.targets@[t].1 as nat));
                    assert(walk_ok(g, sw.targets@[t].1 as int, (fuel - 1) as nat));
                    lemma_chains_complete(g, sw.targets@[t].1 as int, p.push(step), (fuel - 1) as nat, c);
                    lemma_case_chains_include(g, sw.targets@, var, p, (fuel - 1) as nat, k, t, c);
                    let m = choose|m: int| 0 <= m < cc.len() && cc[m] == c;
                    assert((cc + oc)[m] == c);
                } else {
                    assert(step == ostep);
                    lemma_chains_complete(g, sw.otherwise as int, p.push(step), (fuel - 1) as nat, c);
                    let m = choose|m: int| 0 <= m < oc.len() && oc[m] == c;
                    assert((cc + oc)[cc.len() + m] == c);
                }
            },
            None => {
                let next = g[i].suc_blocks@[0];
                assert(step == ("break"@, next as nat));
                lemma_chains_complete(g, next as int, p.push(step), (fuel - 1) as nat, c);
            },
        }
    }
}

/// Every path of the walk from the entry to a block without successors is
/// a condition chain: `break` into block 0, then steps along edges, ending
/// at an exit.
pub proof fn lemma_exit_paths_are_chains(g: Seq<MyBlock>, c: Seq<(Seq<char>, nat)>)
    requires
        walk_terminates(g),
        c.len() >= 1,
        c[0] == ("break"@, 0nat),
        forall|t: int| 0 <= t < c.len() - 1 ==> edge(g, c[t].1 as int, c[t + 1].0, #[trigger] c[t + 1].1),
        is_exit(g, c.last().1 as int),
    ensures
        all_chains(g).contains(c),
{
    assert(c.take(1) =~= entry_chain());
    lemma_chains_complete(g, 0, entry_chain(), walk_fuel(g), c);
}

} // verus!

verus! {

/// The conditions of a chain, in order.
pub open spec fn chain_conditions(c: Seq<(Seq<char>, Seq<char>)>) -> Seq<Seq<char>> {
    c.map_values(|s: (Seq<char>, Seq<char>)| s.0)
}

/// The block numerals of a chain, in order.
pub open spec fn chain_blocks(c: Seq<(Seq<char>, Seq<char>)>) -> Seq<Seq<char>> {
    c.map_values(|s: (Seq<char>, Seq<char>)| s.1)
}

/// Whether a condition is a real one, not the `break` of an unconditional
/// step.
pub open spec fn is_condition(l: Seq<char>) -> bool {
    l != "break"@
}

proof fn lemma_join_nonempty(items: Seq<Seq<char>>, sep: Seq<char>)
    requires
        items.len() > 0,
        items.last().len() > 0,
    ensures
        join(items, sep).len() > 0,
{
}

/// Where no condition is empty, the condition line of a chain is all its
/// conditions other than `break`, in order, joined by `->`.
pub proof fn lemma_chain_text_joins_conditions(c: Seq<(Seq<char>, Seq<char>)>)
    requires
        forall|t: int| 0 <= t < c.len() ==> (#[trigger] c[t]).0.len() > 0,
    ensures
        chain_text(c) == join(chain_conditions(c).filter(|l: Seq<char>| is_condition(l)), "->"@),
        chain_text(c).len() == 0 <==> chain_conditions(c).filter(|l: Seq<char>| is_condition(l)).len()
            == 0,
    decreases c.len(),
{
    let pred = |l: Seq<char>| is_condition(l);
    reveal_with_fuel(Seq::filter, 1);
    if c.len() == 0 {
        assert(chain_conditions(c) =~= Seq::<Seq<char>>::empty());
    } else {
        let d = c.drop_last();
        assert forall|t: int| 0 <= t < d.len() implies (#[trigger] d[t]).0.len() > 0 by {
            assert(d[t] == c[t]);
        }
        lemma_chain_text_joins_conditions(d);
        assert(chain_conditions(c).drop_last() =~= chain_conditions(d));
        assert(chain_conditions(c).last() == c.last().0);
        let f = chain_conditions(d).filter(pred);
        assert(chain_conditions(c).filter(pred) == if pred(c.last().0) { f.push(c.last().0) } else { f });
        if is_condition(c.last().0) {
            assert(f.push(c.last().0).drop_last() =~= f);
            if f.len() > 0 {
                lemma_join_nonempty_filtered(d, f);
            }
        }
    }
}

proof fn lemma_join_nonempty_filtered(d: Seq<(Seq<char>, Seq<char>)>, f: Seq<Seq<char>>)
    requires
        f == chain_conditions(d).filter(|l: Seq<char>| is_condition(l)),
        f.len() > 0,
        forall|t: int| 0 <= t < d.len() ==> (#[trigger] d[t]).0.len() > 0,
    ensures
        f.last().len() > 0,
    decreases d.len(),
{
    let pred = |l: Seq<char>| is_condition(l);
    reveal_with_fuel(Seq::filter, 1);
    if d.len() > 0 {
        let e = d.drop_last();
        assert(chain_conditions(d).drop_last() =~= chain_conditions(e));
        assert(chain_conditions(d).last() == d.last().0);
        let g = chain_conditions(e).filter(pred);
        if !is_condition(d.last().0) {
            assert forall|t: int| 0 <= t < e.len() implies (#[trigger] e[t]).0.len() > 0 by {
                assert(e[t] == d[t]);
            }
            lemma_join_nonempty_filtered(e, g);
        }
    }
}

/// Where no block numeral is empty, the block line of a chain is all its
/// block numerals, in order, joined by spaces.
pub proof fn lemma_flow_text_joins_blocks(c: Seq<(Seq<char>, Seq<char>)>)
    requires
        forall|t: int| 0 <= t < c.len() ==> (#[trigger] c[t]).1.len() > 0,
    ensures
        flow_text(c) == join(chain_blocks(c), " "@),
    decreases c.len(),
{
    if c.len() > 0 {
        let d = c.drop_last();
        assert forall|t: int| 0 <= t < d.len() implies (#[trigger] d[t]).1.len() > 0 by {
            assert(d[t] == c[t]);
        }
        lemma_flow_text_joins_blocks(d);
        assert(chain_blocks(c).drop_last() =~= chain_blocks(d));
        if d.len() > 0 {
            lemma_join_nonempty(chain_blocks(d), " "@);
            assert(chain_blocks(d).last() == d.last().1);
        } else {
            assert(chain_blocks(d).len() == 0);
        }
    }
}

} // verus!

verus! {

/// The report of the chains, line by line: four lines per chain, the `i`-th
/// being `CondChain` and the numeral of `i`, its condition line, its block
/// line, and an empty line.
pub proof fn lemma_chain_report_layout(cs: Seq<Seq<(Seq<char>, Seq<char>)>>)
    ensures
        chain_report(cs).len() == 4 * cs.len(),
        forall|i: int|
            0 <= i < cs.len() ==> {
                &&& #[trigger] chain_report(cs)[4 * i] == "CondChain "@ + decimal(i as nat)
                &&& chain_report(cs)[4 * i + 1] == chain_text(cs[i])
                &&& chain_report(cs)[4 * i + 2] == flow_text(cs[i])
                &&& chain_report(cs)[4 * i + 3] == Seq::<char>::empty()
            },
    decreases cs.len(),
{
    if cs.len() > 0 {
        let d = cs.drop_last();
        lemma_chain_report_layout(d);
        let r = chain_report(cs);
        let n = d.len() as int;
        assert forall|i: int| 0 <= i < cs.len() implies {
            &&& #[trigger] chain_report(cs)[4 * i] == "CondChain "@ + decimal(i as nat)
            &&& chain_report(cs)[4 * i + 1] == chain_text(cs[i])
            &&& chain_report(cs)[4 * i + 2] == flow_text(cs[i])
            &&& chain_report(cs)[4 * i + 3] == Seq::<char>::empty()
        } by {
            if i < n {
                assert(cs[i] == d[i]);
                assert(chain_report(d)[4 * i] == "CondChain "@ + decimal(i as nat));
                assert(r[4 * i] == chain_report(d)[4 * i]);
                assert(r[4 * i + 1] == chain_report(d)[4 * i + 1]);
                assert(r[4 * i + 2] == chain_report(d)[4 * i + 2]);
                assert(r[4 * i + 3] == chain_report(d)[4 * i + 3]);
            } else {
                assert(i == n);
            }
        }
    }
}

/// Every condition of a chain the walk finds is a non-empty text: `break`,
/// or a variable with ` = ` and a value or `otherwise`.
proof fn lemma_chain_conditions_nonempty(g: Seq<MyBlock>, m: int)
    requires
        walk_terminates(g),
        0 <= m < all_chains(g).len(),
    ensures
        forall|t: int| 0 <= t < all_chains(g)[m].len() ==> (#[trigger] all_chains(g)[m][t]).0.len() > 0,
{
    reveal_strlit("break");
    reveal_strlit(" = ");
    reveal_strlit(" = otherwise");
    lemma_chains_are_exit_paths(g);
    let c = all_chains(g)[m];
    assert forall|t: int| 0 <= t < c.len() implies (#[trigger] c[t]).0.len() > 0 by {
        if t > 0 {
            let u = t - 1;
            assert(edge(g, c[u].1 as int, c[u + 1].0, c[u + 1].1));
            let b = g[c[u].1 as int];
            match b.switch {
                Some(sw) => {
                    let var = switch_var(sw.kind@);
                    if c[t].0 != otherwise_label(var) {
                        let k = choose|k: int|
                            0 <= k < sw.targets@.len() && (#[trigger] sw.targets@[k]).1 == c[t].1 && c[t].0
                                == case_label(var, sw.targets@[k].0);
                        assert((var + " = "@ + decimal(sw.targets@[k].0 as nat)).len() > 0);
                    }
                },
                None => {},
            }
        }
    }
}

/// The steps that `cond_chain_cout` stores for a chain the walk finds: the
/// conditions unchanged, each block as its full decimal numeral; its
/// condition line joins all conditions but `break` by `->`, and its block
/// line joins all block numerals by spaces.
pub proof fn lemma_stored_chain(g: Seq<MyBlock>, m: int)
    requires
        walk_terminates(g),
        0 <= m < all_chains(g).len(),
    ensures
        ({
            let s = all_chains(g)[m];
            let c = render_chain(s);
            &&& c.len() == s.len()
            &&& forall|t: int| 0 <= t < s.len() ==> #[trigger] c[t] == (s[t].0, decimal(s[t].1))
            &&& chain_text(c) == join(chain_conditions(c).filter(|l: Seq<char>| is_condition(l)), "->"@)
            &&& flow_text(c) == join(chain_blocks(c), " "@)
        }),
{
    let s = all_chains(g)[m];
    let c = render_chain(s);
    lemma_chain_conditions_nonempty(g, m);
    assert forall|t: int| 0 <= t < c.len() implies (#[trigger] c[t]).0.len() > 0 by {
        assert(c[t].0 == s[t].0);
    }
    assert forall|t: int| 0 <= t < c.len() implies (#[trigger] c[t]).1.len() > 0 by {
        crate::text::lemma_decimal_denotes(s[t].1);
    }
    lemma_chain_text_joins_conditions(c);
    lemma_flow_text_joins_blocks(c);
}

} // verus!

verus! {

/// One step of the walk: from a block without successors the walk ends with
/// any fuel; from any other block it ends within `f + 1` exactly when the
/// block's switch text, if it has one, can be taken apart and the walk ends
/// within `f` from every block that an edge leads to, however many cases
/// the switch has.
pub proof fn lemma_walk_step(g: Seq<MyBlock>, i: int, f: nat)
    requires
        0 <= i < g.len(),
    ensures
        is_exit(g, i) ==> walk_ok(g, i, f + 1),
        !is_exit(g, i) ==> (walk_ok(g, i, f + 1) <==> {
            &&& (g[i].switch matches Some(sw) ==> kind_parses(sw.kind@))
            &&& forall|l: Seq<char>, v: nat| #[trigger] edge(g, i, l, v) ==> walk_ok(g, v as int, f)
        }),
{
    if !is_exit(g, i) {
        match g[i].switch {
            Some(sw) => {
                let var = switch_var(sw.kind@);
                if walk_ok(g, i, f + 1) {
                    assert forall|l: Seq<char>, v: nat| #[trigger] edge(g, i, l, v) implies walk_ok(g, v as int, f) by {
                        if exists|t: int|
                            0 <= t < sw.targets@.len() && (#[trigger] sw.targets@[t]).1 == v && l
                                == case_label(var, sw.targets@[t].0) {
                            let t = choose|t: int|
                                0 <= t < sw.targets@.len() && (#[trigger] sw.targets@[t]).1 == v && l
                                    == case_label(var, sw.targets@[t].0);
                            assert(walk_ok(g, sw.targets@[t].1 as int, f));
                        }
                    }
                }
                if kind_parses(sw.kind@) && forall|l: Seq<char>, v: nat| #[trigger] edge(g, i, l, v) ==> walk_ok(g, v as int, f) {
                    assert forall|t: int| 0 <= t < sw.targets@.len() implies walk_ok(
                        g,
                        (#[trigger] sw.targets@[t]).1 as int,
                        f,
                    ) by {
                        assert(edge(g, i, case_label(var, sw.targets@[t].0), sw.targets@[t].1 as nat));
                    }
                    assert(edge(g, i, otherwise_label(var), sw.otherwise as nat));
                    assert(((f + 1) - 1) as nat == f);
                }
            },
            None => {
                let next = g[i].suc_blocks@[0];
                if forall|l: Seq<char>, v: nat| #[trigger] edge(g, i, l, v) ==> walk_ok(g, v as int, f) {
                    assert(edge(g, i, "break"@, next as nat));
                }
            },
        }
    }
}

proof fn lemma_ranked_block(g: Seq<MyBlock>, rank: Seq<nat>, i: int)
    requires
        rank.len() == g.len(),
        0 <= i < g.len(),
        forall|j: int|
            0 <= j < g.len() && g[j].suc_blocks@.len() > 0 ==> (#[trigger] g[j].switch matches Some(sw)
                ==> kind_parses(sw.kind@)),
        forall|j: int, l: Seq<char>, v: nat|
            #[trigger] edge(g, j, l, v) ==> v < g.len() && rank[v as int] < rank[j],
    ensures
        walk_ok(g, i, rank[i] + 1),
    decreases rank[i],
{
    lemma_walk_step(g, i, rank[i]);
    if !is_exit(g, i) {
        assert(g[i].switch matches Some(sw) ==> kind_parses(sw.kind@));
        assert forall|l: Seq<char>, v: nat| #[trigger] edge(g, i, l, v) implies walk_ok(g, v as int, rank[i]) by {
            lemma_ranked_block(g, rank, v as int);
            lemma_fuel_mono(g, v as int, Seq::empty(), rank[v as int] + 1, rank[i]);
        }
    }
}

/// The walk ends wherever the blocks can be ranked so that every edge leads
/// to a block of the function with a lower rank (so wherever no path runs
/// into a cycle or out of the blocks), and every switch text can be taken
/// apart: however many cases its switches have.
pub proof fn lemma_ranked_walk_ends(g: Seq<MyBlock>, rank: Seq<nat>)
    requires
        g.len() > 0,
        rank.len() == g.len(),
        forall|j: int|
            0 <= j < g.len() && g[j].suc_blocks@.len() > 0 ==> (#[trigger] g[j].switch matches Some(sw)
                ==> kind_parses(sw.kind@)),
        forall|j: int, l: Seq<char>, v: nat|
            #[trigger] edge(g, j, l, v) ==> v < g.len() && rank[v as int] < rank[j],
    ensures
        walk_terminates(g),
{
    lemma_ranked_block(g, rank, 0);
    assert(walk_ok(g, 0, rank[0] + 1));
}

} // verus!

verus! {

/// What a switch's variable is, where its kind text can be taken apart: the
/// part of the text that starts at the first `_` after the first `(` and
/// ends just before the first `)`.  It begins with `_` and holds no `)`.
pub proof fn lemma_switch_var_span(k: Seq<char>)
    requires
        kind_parses(k),
    ensures
        exists|a: int, u: int, b: int|
            #![trigger k[a], k.subrange(u, b)]
            {
                &&& 0 <= a < u < b < k.len()
                &&& k[a] == '(' && forall|j: int| 0 <= j < a ==> k[j] != '('
                &&& k[b] == ')' && forall|j: int| 0 <= j < b ==> k[j] != ')'
                &&& k[u] == '_' && forall|j: int| a < j < u ==> k[j] != '_'
                &&& k.subrange(u, b) == switch_var(k)
            },
{
    lemma_find_char_first(k, '(');
    lemma_find_char_first(k, ')');
    let a = find_char(k, '(').unwrap() as int;
    let b = find_char(k, ')').unwrap() as int;
    let inner = k.subrange(a + 1, b);
    lemma_find_char_first(inner, '_');
    let w = find_char(inner, '_').unwrap() as int;
    let u = a + 1 + w;
    assert(k[u] == inner[w]);
    assert forall|j: int| a < j < u implies k[j] != '_' by {
        assert(k[j] == inner[j - a - 1]);
    }
    assert(inner.subrange(w, inner.len() as int) =~= k.subrange(u, b));
    assert(k.subrange(u, b) == switch_var(k));
    assert(k[a] == '(');
}

} // verus!

verus! {

/// The step along case `t` of the switch of block `u`.
pub open spec fn case_step(g: Seq<MyBlock>, u: int, t: int) -> (Seq<char>, nat) {
    let sw = g[u].switch.unwrap();
    (case_label(switch_var(sw.kind@), sw.targets@[t].0), sw.targets@[t].1 as nat)
}

/// Where a step out of block `u` stands among the block's ways on: the
/// number of its case for a switch (the fallback coming after all cases),
/// and 0 for the one way on out of any other block.
pub open spec fn step_position(g: Seq<MyBlock>, u: int, s: (Seq<char>, nat)) -> int {
    match g[u].switch {
        Some(sw) => if exists|t: int| 0 <= t < sw.targets@.len() && #[trigger] case_step(g, u, t) == s {
            choose|t: int| 0 <= t < sw.targets@.len() && #[trigger] case_step(g, u, t) == s
        } else {
            sw.targets@.len() as int
        },
        None => 0,
    }
}

/// No switch lists the same value twice.
pub open spec fn distinct_cases(g: Seq<MyBlock>) -> bool {
    forall|u: int, t1: int, t2: int|
        0 <= u < g.len() && g[u].switch is Some && 0 <= t1 < t2 < g[u].switch.unwrap().targets@.len()
            ==> (#[trigger] g[u].switch.unwrap().targets@[t1]).0 != (
        #[trigger] g[u].switch.unwrap().targets@[t2]).0
}

/// `c1` and `c2` agree on their first `d` steps and then part at the block
/// they both reached, `c1` taking a way on that comes before the one `c2`
/// takes.
pub open spec fn parts_before(g: Seq<MyBlock>, c1: Seq<(Seq<char>, nat)>, c2: Seq<(Seq<char>, nat)>, d: int) -> bool {
    &&& 1 <= d < c1.len()
    &&& d < c2.len()
    &&& c1.take(d) == c2.take(d)
    &&& step_position(g, c1[d - 1].1 as int, c1[d]) < step_position(g, c1[d - 1].1 as int, c2[d])
}

proof fn lemma_case_step_position(g: Seq<MyBlock>, u: int, t: int)
    requires
        distinct_cases(g),
        0 <= u < g.len(),
        g[u].switch is Some,
        0 <= t < g[u].switch.unwrap().targets@.len(),
    ensures
        step_position(g, u, case_step(g, u, t)) == t,
{
    let sw = g[u].switch.unwrap();
    let var = switch_var(sw.kind@);
    let s = case_step(g, u, t);
    assert(exists|t2: int| 0 <= t2 < sw.targets@.len() && #[trigger] case_step(g, u, t2) == s);
    let t2 = choose|t2: int| 0 <= t2 < sw.targets@.len() && #[trigger] case_step(g, u, t2) == s;
    if t2 != t {
        let v1 = sw.targets@[t].0;
        let v2 = sw.targets@[t2].0;
        let pre = var + " = "@;
        assert((pre + decimal(v1 as nat)).skip(pre.len() as int) =~= decimal(v1 as nat));
        assert((pre + decimal(v2 as nat)).skip(pre.len() as int) =~= decimal(v2 as nat));
        crate::text::lemma_decimal_injective(v1 as nat, v2 as nat);
        if t < t2 {
            assert(sw.targets@[t].0 != sw.targets@[t2].0);
        } else {
            assert(sw.targets@[t2].0 != sw.targets@[t].0);
        }
    }
}

proof fn lemma_otherwise_position(g: Seq<MyBlock>, u: int)
    requires
        0 <= u < g.len(),
        g[u].switch is Some,
    ensures
        step_position(g, u, (otherwise_label(switch_var(g[u].switch.unwrap().kind@)), g[u].switch.unwrap().otherwise as nat))
            == g[u].switch.unwrap().targets@.len(),
{
    let sw = g[u].switch.unwrap();
    let var = switch_var(sw.kind@);
    let s = (otherwise_label(var), sw.otherwise as nat);
    reveal_strlit(" = ");
    reveal_strlit(" = otherwise");
    if exists|t: int| 0 <= t < sw.targets@.len() && #[trigger] case_step(g, u, t) == s {
        let t = choose|t: int| 0 <= t < sw.targets@.len() && #[trigger] case_step(g, u, t) == s;
        let v = sw.targets@[t].0;
        crate::text::lemma_decimal_denotes(v as nat);
        let at = var.len() + 3int;
        assert((var + " = "@ + decimal(v as nat))[at] == decimal(v as nat)[0]);
        assert((var + " = otherwise"@)[at] == 'o');
        assert(crate::text::is_digit(decimal(v as nat)[0]));
    }
}

/// Every chain through the first `k` cases starts with the prefix and then
/// the step of one of those cases.
proof fn lemma_case_origin(
    g: Seq<MyBlock>,
    i: int,
    p: Seq<(Seq<char>, nat)>,
    fuel: nat,
    k: nat,
)
    requires
        p.len() > 0,
        p.last().1 == i,
        0 <= i < g.len(),
        g[i].suc_blocks@.len() > 0,
        g[i].switch is Some,
        k <= g[i].switch.unwrap().targets@.len(),
    ensures
        forall|m: int|
            0 <= m < case_chains(
                g,
                g[i].switch.unwrap().targets@,
                switch_var(g[i].switch.unwrap().kind@),
                p,
                fuel,
                k,
            ).len() ==> (#[trigger] case_chains(
                g,
                g[i].switch.unwrap().targets@,
                switch_var(g[i].switch.unwrap().kind@),
                p,
                fuel,
                k,
            )[m]).len() > p.len(),
        forall|m: int|
            0 <= m < case_chains(
                g,
                g[i].switch.unwrap().targets@,
                switch_var(g[i].switch.unwrap().kind@),
                p,
                fuel,
                k,
            ).len() ==> exists|t: int|
                0 <= t < k && #[trigger] case_chains(
                    g,
                    g[i].switch.unwrap().targets@,
                    switch_var(g[i].switch.unwrap().kind@),
                    p,
                    fuel,
                    k,
                )[m].take(p.len() + 1int) == p.push(case_step(g, i, t)),
    decreases k,
{
    let sw = g[i].switch.unwrap();
    let var = switch_var(sw.kind@);
    if k > 0 {
        lemma_case_origin(g, i, p, fuel, (k - 1) as nat);
        let prev = case_chains(g, sw.targets@, var, p, fuel, (k - 1) as nat);
        let step = case_step(g, i, k - 1);
        let tc = chains(g, sw.targets@[k - 1].1 as int, p.push(step), fuel);
        lemma_chains_sound(g, sw.targets@[k - 1].1 as int, p.push(step), fuel);
        let r = case_chains(g, sw.targets@, var, p, fuel, k);
        assert(r == prev + tc);
        assert forall|m: int| 0 <= m < r.len() implies (#[trigger] r[m]).len() > p.len() by {
            if m < prev.len() {
                assert(r[m] == prev[m]);
            } else {
                assert(r[m] == tc[m - prev.len()]);
                assert(extends_to_exit(g, p.push(step), tc[m - prev.len()]));
            }
        }
        assert forall|m: int| 0 <= m < r.len() implies exists|t: int|
            0 <= t < k && #[trigger] r[m].take(p.len() + 1int) == p.push(case_step(g, i, t)) by {
            if m < prev.len() {
                assert(r[m] == prev[m]);
                let t = choose|t: int| 0 <= t < k - 1 && #[trigger] prev[m].take(p.len() + 1int) == p.push(case_step(g, i, t));
                assert(r[m].take(p.len() + 1int) == p.push(case_step(g, i, t)));
            } else {
                assert(r[m] == tc[m - prev.len()]);
                assert(extends_to_exit(g, p.push(step), tc[m - prev.len()]));
                assert(r[m].take(p.len() + 1int) == p.push(case_step(g, i, k - 1)));
            }
        }
    }
}

} // verus!

verus! {

/// Of any two chains in `r`, the earlier one parts from the later one, at
/// some step `lo` or later, by taking an earlier way on.
pub open spec fn ordered_from(g: Seq<MyBlock>, r: Seq<Seq<(Seq<char>, nat)>>, lo: int) -> bool {
    forall|m1: int, m2: int| 0 <= m1 < m2 < r.len() ==> #[trigger] parted(g, r[m1], r[m2], lo)
}

/// `c1` parts from `c2`, at step `lo` or later, by taking an earlier way on.
pub open spec fn parted(g: Seq<MyBlock>, c1: Seq<(Seq<char>, nat)>, c2: Seq<(Seq<char>, nat)>, lo: int) -> bool {
    exists|d: int| lo <= d && #[trigger] parts_before(g, c1, c2, d)
}

/// Every chain of `a` parts from every chain of `b`, at some step `lo` or
/// later, by taking an earlier way on.
pub open spec fn all_part_before(
    g: Seq<MyBlock>,
    a: Seq<Seq<(Seq<char>, nat)>>,
    b: Seq<Seq<(Seq<char>, nat)>>,
    lo: int,
) -> bool {
    forall|x: int, y: int| 0 <= x < a.len() && 0 <= y < b.len() ==> #[trigger] parted(g, a[x], b[y], lo)
}

proof fn lemma_ordered_concat(
    g: Seq<MyBlock>,
    a: Seq<Seq<(Seq<char>, nat)>>,
    b: Seq<Seq<(Seq<char>, nat)>>,
    lo: int,
)
    requires
        ordered_from(g, a, lo),
        ordered_from(g, b, lo),
        all_part_before(g, a, b, lo),
    ensures
        ordered_from(g, a + b, lo),
{
    let r = a + b;
    assert forall|m1: int, m2: int| 0 <= m1 < m2 < r.len() implies #[trigger] parted(g, r[m1], r[m2], lo) by {
        if m2 < a.len() {
            assert(r[m1] == a[m1] && r[m2] == a[m2]);
            assert(parted(g, a[m1], a[m2], lo));
        } else if m1 >= a.len() {
            let y1 = m1 - a.len();
            let y2 = m2 - a.len();
            assert(r[m1] == b[y1] && r[m2] == b[y2]);
            assert(parted(g, b[y1], b[y2], lo));
        } else {
            let y = m2 - a.len();
            assert(r[m1] == a[m1] && r[m2] == b[y]);
            assert(parted(g, a[m1], b[y], lo));
        }
    }
}

proof fn lemma_ordered_weaken(g: Seq<MyBlock>, r: Seq<Seq<(Seq<char>, nat)>>, lo: int, lo2: int)
    requires
        ordered_from(g, r, lo2),
        lo <= lo2,
    ensures
        ordered_from(g, r, lo),
{
    assert forall|m1: int, m2: int| 0 <= m1 < m2 < r.len() implies #[trigger] parted(g, r[m1], r[m2], lo) by {
        assert(parted(g, r[m1], r[m2], lo2));
        let d = choose|d: int| lo2 <= d && #[trigger] parts_before(g, r[m1], r[m2], d);
        assert(parts_before(g, r[m1], r[m2], d));
    }
}

/// Two chains that leave the prefix by ways on at positions `t1 < t2`
/// part there in that order.
proof fn lemma_parts_at_prefix(
    g: Seq<MyBlock>,
    p: Seq<(Seq<char>, nat)>,
    c1: Seq<(Seq<char>, nat)>,
    c2: Seq<(Seq<char>, nat)>,
    s1: (Seq<char>, nat),
    s2: (Seq<char>, nat),
)
    requires
        p.len() > 0,
        c1.len() > p.len(),
        c2.len() > p.len(),
        c1.take(p.len() + 1int) == p.push(s1),
        c2.take(p.len() + 1int) == p.push(s2),
        step_position(g, p.last().1 as int, s1) < step_position(g, p.last().1 as int, s2),
    ensures
        parts_before(g, c1, c2, p.len() as int),
{
    let d = p.len() as int;
    assert(c1.take(d) =~= p) by {
        assert forall|j: int| 0 <= j < d implies c1.take(d)[j] == p[j] by {
            assert(c1.take(d + 1)[j] == p.push(s1)[j]);
        }
    }
    assert(c2.take(d) =~= p) by {
        assert forall|j: int| 0 <= j < d implies c2.take(d)[j] == p[j] by {
            assert(c2.take(d + 1)[j] == p.push(s2)[j]);
        }
    }
    assert(c1[d] == c1.take(d + 1)[d]);
    assert(c2[d] == c2.take(d + 1)[d]);
    assert(c1[d - 1] == c1.take(d)[d - 1]);
}

proof fn lemma_chains_ordered(g: Seq<MyBlock>, i: int, p: Seq<(Seq<char>, nat)>, fuel: nat)
    requires
        distinct_cases(g),
        p.len() > 0,
        p.last().1 == i,
    ensures
        ordered_from(g, chains(g, i, p, fuel), p.len() as int),
    decreases fuel, 0nat,
{
    let r = chains(g, i, p, fuel);
    if fuel == 0 || i < 0 || i >= g.len() || g[i].suc_blocks@.len() == 0 {
    } else {
        match g[i].switch {
            Some(sw) => {
                let var = switch_var(sw.kind@);
                let k = sw.targets@.len();
                let cc = case_chains(g, sw.targets@, var, p, (fuel - 1) as nat, k);
                let ostep = (otherwise_label(var), sw.otherwise as nat);
                let oc = chains(g, sw.otherwise as int, p.push(ostep), (fuel - 1) as nat);
                assert(r == cc + oc);
                lemma_case_ordered(g, i, p, (fuel - 1) as nat, k);
                lemma_chains_ordered(g, sw.otherwise as int, p.push(ostep), (fuel - 1) as nat);
                lemma_ordered_weaken(g, oc, p.len() as int, p.len() + 1int);
                lemma_case_origin(g, i, p, (fuel - 1) as nat, k);
                lemma_chains_sound(g, sw.otherwise as int, p.push(ostep), (fuel - 1) as nat);
                lemma_otherwise_position(g, i);
                assert forall|x: int, y: int| 0 <= x < cc.len() && 0 <= y < oc.len() implies #[trigger] parted(g, cc[x], oc[y], p.len() as int) by {
                    let t = choose|t: int| 0 <= t < k && #[trigger] cc[x].take(p.len() + 1int) == p.push(case_step(g, i, t));
                    assert(cc[x].len() > p.len());
                    assert(extends_to_exit(g, p.push(ostep), oc[y]));
                    lemma_case_step_position(g, i, t);
                    lemma_parts_at_prefix(g, p, cc[x], oc[y], case_step(g, i, t), ostep);
                    assert(parts_before(g, cc[x], oc[y], p.len() as int));
                }
                assert(all_part_before(g, cc, oc, p.len() as int));
                lemma_ordered_concat(g, cc, oc, p.len() as int);
            },
            None => {
                let next = g[i].suc_blocks@[0];
                let step = ("break"@, next as nat);
                lemma_chains_ordered(g, next as int, p.push(step), (fuel - 1) as nat);
                assert(r == chains(g, next as int, p.push(step), (fuel - 1) as nat));
                lemma_ordered_weaken(g, r, p.len() as int, p.len() + 1int);
            },
        }
    }
}

proof fn lemma_case_ordered(g: Seq<MyBlock>, i: int, p: Seq<(Seq<char>, nat)>, fuel: nat, k: nat)
    requires
        distinct_cases(g),
        p.len() > 0,
        p.last().1 == i,
        0 <= i < g.len(),
        g[i].suc_blocks@.len() > 0,
        g[i].switch is Some,
        k <= g[i].switch.unwrap().targets@.len(),
    ensures
        ordered_from(
            g,
            case_chains(g, g[i].switch.unwrap().targets@, switch_var(g[i].switch.unwrap().kind@), p, fuel, k),
            p.len() as int,
        ),
    decreases fuel, k + 1,
{
    let sw = g[i].switch.unwrap();
    let var = switch_var(sw.kind@);
    let r = case_chains(g, sw.targets@, var, p, fuel, k);
    if k > 0 {
        let prev = case_chains(g, sw.targets@, var, p, fuel, (k - 1) as nat);
        let step = case_step(g, i, k - 1);
        let tc = chains(g, sw.targets@[k - 1].1 as int, p.push(step), fuel);
        assert(r == prev + tc);
        lemma_case_ordered(g, i, p, fuel, (k - 1) as nat);
        lemma_chains_ordered(g, sw.targets@[k - 1].1 as int, p.push(step), fuel);
        lemma_ordered_weaken(g, tc, p.len() as int, p.len() + 1int);
        lemma_case_origin(g, i, p, fuel, (k - 1) as nat);
        lemma_chains_sound(g, sw.targets@[k - 1].1 as int, p.push(step), fuel);
        lemma_case_step_position(g, i, k - 1);
        assert forall|x: int, y: int| 0 <= x < prev.len() && 0 <= y < tc.len() implies #[trigger] parted(g, prev[x], tc[y], p.len() as int) by {
            let t = choose|t: int| 0 <= t < k - 1 && #[trigger] prev[x].take(p.len() + 1int) == p.push(case_step(g, i, t));
            assert(prev[x].len() > p.len());
            assert(extends_to_exit(g, p.push(step), tc[y]));
            lemma_case_step_position(g, i, t);
            lemma_parts_at_prefix(g, p, prev[x], tc[y], case_step(g, i, t), step);
            assert(parts_before(g, prev[x], tc[y], p.len() as int));
        }
        assert(all_part_before(g, prev, tc, p.len() as int));
        lemma_ordered_concat(g, prev, tc, p.len() as int);
    }
}

/// The chains come in the order of the walk: where the cases of no switch
/// repeat a value, of any two chains the earlier one parts from the later
/// one, after some common steps, by taking an earlier way on at the block
/// they both reached, the cases of a switch in their listed order and its
/// fallback last.  So no chain is found twice.
pub proof fn lemma_chains_in_walk_order(g: Seq<MyBlock>, m1: int, m2: int)
    requires
        walk_terminates(g),
        distinct_cases(g),
        0 <= m1 < m2 < all_chains(g).len(),
    ensures
        exists|d: int| #[trigger] parts_before(g, all_chains(g)[m1], all_chains(g)[m2], d),
        all_chains(g)[m1] != all_chains(g)[m2],
{
    lemma_chains_ordered(g, 0, entry_chain(), walk_fuel(g));
    assert(parted(g, all_chains(g)[m1], all_chains(g)[m2], 1));
    let d = choose|d: int| 1 <= d && #[trigger] parts_before(g, all_chains(g)[m1], all_chains(g)[m2], d);
    assert(all_chains(g)[m1][d] != all_chains(g)[m2][d]);
}

} // verus!

verus! {

/// The positions of the first `(` and the first `)` of a text, with a `_`
/// between them.
pub open spec fn delimits_variable(k: Seq<char>, a: int, b: int, u: int) -> bool {
    &&& 0 <= a < u < b < k.len()
    &&& k[a] == '(' && forall|j: int| 0 <= j < a ==> k[j] != '('
    &&& k[b] == ')' && forall|j: int| 0 <= j < b ==> k[j] != ')'
    &&& k[u] == '_'
}

/// A switch's kind text can be taken apart exactly when it holds a `(`,
/// then, after the first `(`, a `)`, and a `_` between the first `(` and the
/// first `)`.
pub proof fn lemma_kind_parses_iff(k: Seq<char>)
    ensures
        kind_parses(k) <==> exists|a: int, b: int, u: int| #[trigger] delimits_variable(k, a, b, u),
{
    lemma_find_char_first(k, '(');
    lemma_find_char_first(k, ')');
    if kind_parses(k) {
        let a = find_char(k, '(').unwrap() as int;
        let b = find_char(k, ')').unwrap() as int;
        let inner = k.subrange(a + 1, b);
        lemma_find_char_first(inner, '_');
        let w = find_char(inner, '_').unwrap() as int;
        assert(k[a + 1 + w] == inner[w]);
        assert(delimits_variable(k, a, b, a + 1 + w));
    }
    if exists|a: int, b: int, u: int| #[trigger] delimits_variable(k, a, b, u) {
        let (a, b, u) = choose|a: int, b: int, u: int| #[trigger] delimits_variable(k, a, b, u);
        assert(find_char(k, '(') == Some(a as nat)) by {
            if let Some(x) = find_char(k, '(') {
                if (x as int) < a {
                    assert(k[x as int] != '(');
                }
            }
        }
        assert(find_char(k, ')') == Some(b as nat)) by {
            if let Some(x) = find_char(k, ')') {
                if (x as int) < b {
                    assert(k[x as int] != ')');
                }
            }
        }
        let inner = k.subrange(a + 1, b);
        lemma_find_char_first(inner, '_');
        assert(inner[u - a - 1] == '_');
    }
}

} // verus!
