use rbrinfo::analysis::callback::MirCheckerCallbacks;
use rbrinfo::blocks::{FnBlocks, RawBlock, RawFn, SwitchInfo};
use rbrinfo::trans::Trans;

fn goto(text: &str, stmts: &[&str]) -> RawBlock {
    RawBlock {
        statements: stmts.iter().map(|s| s.to_string()).collect(),
        terminator: text.to_string(),
        switch: None,
    }
}

fn switch(kind: &str, targets: &[(u128, usize)], otherwise: usize) -> RawBlock {
    RawBlock {
        statements: vec![],
        terminator: format!("Terminator {{ kind: {} }}", kind),
        switch: Some(SwitchInfo {
            kind: kind.to_string(),
            targets: targets.to_vec(),
            otherwise,
        }),
    }
}

/// The body of `if num > 0 { .. } else if num < 0 { .. } else { .. }`.
fn if_chain() -> RawFn {
    RawFn {
        name: "DefId(0:3 ~ a[1234]::main)".to_string(),
        blocks: vec![
            switch("switchInt(move _2) -> [0: bb2, otherwise: bb1]", &[(0, 2)], 1),
            goto("goto -> bb5", &["_1 = const 1_i32"]),
            switch("switchInt(move _3) -> [0: bb4, otherwise: bb3]", &[(0, 4)], 3),
            goto("goto -> bb5", &["_1 = const 2_i32"]),
            goto("goto -> bb5", &["_1 = const 3_i32"]),
            goto("return", &[]),
        ],
        rpo: vec![0, 1, 2, 3, 4, 5],
        preds: vec![vec![], vec![0], vec![0], vec![2], vec![2], vec![1, 3, 4]],
    }
}

fn built(raw: RawFn) -> FnBlocks {
    MirCheckerCallbacks::<()>::fn_blocks(raw)
}

#[test]
fn new_callbacks_have_no_source_name() {
    let cb = MirCheckerCallbacks::new(7u32);
    assert_eq!(cb.analysis_options, 7);
    assert_eq!(cb.source_name, "");
}

#[test]
fn config_records_name_and_flag() {
    let mut cb = MirCheckerCallbacks::new(());
    let mut cfg = vec!["debug_assertions".to_string()];
    cb.config("Real(LocalPath(\"b.rs\"))".to_string(), &mut cfg);
    assert_eq!(cb.source_name, "Real(LocalPath(\"b.rs\"))");
    assert_eq!(cfg, vec!["debug_assertions".to_string(), "mir_checker".to_string()]);
}

#[test]
fn successors_are_rebuilt_from_predecessors() {
    let f = built(if_chain());
    let sucs: Vec<Vec<usize>> = f.blocks.iter().map(|b| b.suc_blocks.clone()).collect();
    assert_eq!(sucs, vec![vec![1, 2], vec![5], vec![3, 4], vec![5], vec![5], vec![]]);
    let names: Vec<usize> = f.blocks.iter().map(|b| b.block_name).collect();
    assert_eq!(names, vec![0, 1, 2, 3, 4, 5]);
    assert_eq!(f.blocks[5].pre_blocks, vec![1, 3, 4]);
    assert_eq!(f.blocks[1].statements, vec!["_1 = const 1_i32".to_string()]);
    assert!(f.cond_chains.is_empty());
}

#[test]
fn repeated_predecessors_give_repeated_successors() {
    let raw = RawFn {
        name: "f".to_string(),
        blocks: vec![
            switch("switchInt(move _1) -> [0: bb1, 1: bb1, otherwise: bb2]", &[(0, 1), (1, 1)], 2),
            goto("return", &[]),
            goto("return", &[]),
        ],
        rpo: vec![0, 1, 2],
        preds: vec![vec![], vec![0, 0], vec![0]],
    };
    let f = built(raw);
    assert_eq!(f.blocks[0].suc_blocks, vec![1, 1, 2]);
}

#[test]
fn successor_counts_mirror_predecessor_counts() {
    let f = built(if_chain());
    for j in 0..f.blocks.len() {
        for k in 0..f.blocks.len() {
            let s = f.blocks[k].suc_blocks.iter().filter(|&&x| x == j).count();
            let p = f.blocks[j].pre_blocks.iter().filter(|&&x| x == k).count();
            assert_eq!(s, p);
        }
        let mut sorted = f.blocks[j].suc_blocks.clone();
        sorted.sort();
        assert_eq!(sorted, f.blocks[j].suc_blocks);
    }
}

#[test]
fn dump_of_a_function() {
    let f = built(if_chain());
    let lines = f.my_cout();
    assert_eq!(lines[0], format!("{:?}", "DefId(0:3 ~ a[1234]::main)"));
    assert_eq!(lines[1], "");
    assert_eq!(
        lines[2..8].to_vec(),
        vec![
            "bb0",
            "terminator Terminator { kind: switchInt(move _2) -> [0: bb2, otherwise: bb1] }",
            "preds []",
            "succs [bb1, bb2]",
            "",
            "bb1",
        ]
    );
    assert_eq!(lines[8], "0: _1 = const 1_i32");
    assert_eq!(lines[9], "terminator goto -> bb5");
    assert_eq!(lines[10], "preds [bb0]");
    assert_eq!(lines[11], "succs [bb5]");
    assert_eq!(lines.last().unwrap(), "");
    assert_eq!(lines[lines.len() - 3], "preds [bb1, bb3, bb4]");
    assert_eq!(lines[lines.len() - 2], "succs []");
}

#[test]
fn quoted_names_are_escaped() {
    let mut f = built(if_chain());
    f.fn_name = "say \"hi\"".to_string();
    let lines = f.my_cout();
    assert_eq!(lines[0], "\"say \\\"hi\\\"\"");
}

#[test]
fn condition_chains_of_an_if_chain() {
    let mut f = built(if_chain());
    assert!(f.chains_terminate());
    let lines = f.cond_chain_cout();
    assert_eq!(
        lines,
        vec![
            "CondChain 0",
            "_2 = 0->_3 = 0",
            "0 2 4 5",
            "",
            "CondChain 1",
            "_2 = 0->_3 = otherwise",
            "0 2 3 5",
            "",
            "CondChain 2",
            "_2 = otherwise",
            "0 1 5",
            "",
        ]
    );
    assert_eq!(f.cond_chains.len(), 3);
    assert_eq!(
        f.cond_chains[2],
        vec![
            ("break".to_string(), "0".to_string()),
            ("_2 = otherwise".to_string(), "1".to_string()),
            ("break".to_string(), "5".to_string()),
        ]
    );
}

#[test]
fn every_chain_is_a_path_to_an_exit() {
    let mut f = built(if_chain());
    f.cond_chain_cout();
    for c in &f.cond_chains {
        assert_eq!(c[0], ("break".to_string(), "0".to_string()));
        let last: usize = c.last().unwrap().1.parse().unwrap();
        assert!(f.blocks[last].suc_blocks.is_empty());
        for w in c.windows(2) {
            let from: usize = w[0].1.parse().unwrap();
            let to: usize = w[1].1.parse().unwrap();
            assert!(f.blocks[from].suc_blocks.contains(&to));
        }
    }
}

#[test]
fn condition_chains_accumulate() {
    let mut f = built(if_chain());
    f.cond_chain_cout();
    let lines = f.cond_chain_cout();
    assert_eq!(f.cond_chains.len(), 6);
    assert_eq!(lines.len(), 24);
    assert_eq!(lines[20], "CondChain 5");
    assert_eq!(lines[22], "0 1 5");
}

#[test]
fn single_block_function_has_one_chain() {
    let raw = RawFn {
        name: "f".to_string(),
        blocks: vec![goto("return", &[])],
        rpo: vec![0],
        preds: vec![vec![]],
    };
    let mut f = built(raw);
    assert!(f.chains_terminate());
    assert_eq!(f.cond_chain_cout(), vec!["CondChain 0", "", "0", ""]);
}

#[test]
fn a_match_on_a_character() {
    // match grade { 'A' => .., 'B' => .., 'C' => .., _ => .. }
    let raw = RawFn {
        name: "switch".to_string(),
        blocks: vec![
            switch(
                "switchInt(copy _1) -> [65: bb2, 66: bb3, 67: bb4, otherwise: bb1]",
                &[(65, 2), (66, 3), (67, 4)],
                1,
            ),
            goto("goto -> bb5", &[]),
            goto("goto -> bb5", &[]),
            goto("goto -> bb5", &[]),
            goto("goto -> bb5", &[]),
            goto("return", &[]),
        ],
        rpo: vec![0, 1, 2, 3, 4, 5],
        preds: vec![vec![], vec![0], vec![0], vec![0], vec![0], vec![1, 2, 3, 4]],
    };
    let mut f = built(raw);
    let lines = f.cond_chain_cout();
    let chains: Vec<&String> = lines.iter().skip(1).step_by(4).collect();
    assert_eq!(chains, vec!["_1 = 65", "_1 = 66", "_1 = 67", "_1 = otherwise"]);
    let flows: Vec<&String> = lines.iter().skip(2).step_by(4).collect();
    assert_eq!(flows, vec!["0 2 5", "0 3 5", "0 4 5", "0 1 5"]);
}

#[test]
fn a_loop_never_ends_the_walk() {
    let raw = RawFn {
        name: "looping".to_string(),
        blocks: vec![
            goto("goto -> bb1", &[]),
            switch("switchInt(move _4) -> [0: bb2, otherwise: bb0]", &[(0, 2)], 0),
            goto("return", &[]),
        ],
        rpo: vec![0, 1, 2],
        preds: vec![vec![1], vec![0], vec![1]],
    };
    let f = built(raw);
    assert!(!f.chains_terminate());
}

#[test]
fn an_unreadable_switch_stops_the_walk() {
    let raw = RawFn {
        name: "odd".to_string(),
        blocks: vec![
            switch("switchInt(const false) -> [0: bb1, otherwise: bb1]", &[(0, 1)], 1),
            goto("return", &[]),
        ],
        rpo: vec![0, 1],
        preds: vec![vec![], vec![0, 0]],
    };
    let f = built(raw);
    assert!(!f.chains_terminate());
}

#[test]
fn a_switch_never_reached_does_not_matter() {
    let raw = RawFn {
        name: "dead".to_string(),
        blocks: vec![
            goto("return", &[]),
            switch("switchInt(const false) -> [0: bb0, otherwise: bb0]", &[(0, 0)], 0),
        ],
        rpo: vec![0, 1],
        preds: vec![vec![1, 1], vec![]],
    };
    let mut f = built(raw);
    assert!(f.chains_terminate());
    assert_eq!(f.cond_chain_cout(), vec!["CondChain 0", "", "0", ""]);
}

#[test]
fn run_analysis_reports_every_function() {
    let cb = MirCheckerCallbacks::new(());
    let fns = vec![built(if_chain()), built(RawFn {
        name: "g".to_string(),
        blocks: vec![goto("return", &[])],
        rpo: vec![0],
        preds: vec![vec![]],
    })];
    let mut expected: Vec<String> = Vec::new();
    for mut f in vec![built(if_chain())] {
        expected.extend(f.my_cout());
        expected.extend(f.cond_chain_cout());
    }
    let lines = cb.run_analysis(fns);
    assert_eq!(lines[..expected.len()].to_vec(), expected);
    assert_eq!(
        lines[expected.len()..].to_vec(),
        vec!["\"g\"", "", "bb0", "terminator return", "preds []", "succs []", "", "CondChain 0", "", "0", ""]
    );
}

#[test]
fn parse_mir_names_blocks_in_reverse_postorder() {
    let raw = RawFn {
        name: "t".to_string(),
        blocks: vec![
            goto("goto -> bb2", &["a"]),
            goto("return", &["b"]),
            goto("goto -> bb1", &["c"]),
        ],
        rpo: vec![0, 2, 1],
        preds: vec![vec![], vec![2], vec![0]],
    };
    let out = Trans::parse_mir(vec![raw]);
    assert_eq!(out.len(), 1);
    let f = &out[0];
    let names: Vec<usize> = f.blocks.iter().map(|b| b.block_name).collect();
    assert_eq!(names, vec![0, 2, 1]);
    assert_eq!(f.blocks[1].statements, vec!["b".to_string()]);
    assert_eq!(f.blocks[1].pre_blocks, vec![0]);
    assert_eq!(f.blocks[0].suc_blocks, vec![2]);
    assert_eq!(f.blocks[1].suc_blocks, vec![1]);
    assert!(f.blocks[2].suc_blocks.is_empty());
    assert_eq!(f.blocks[2].pre_blocks, vec![2]);
}

#[test]
fn parse_mir_of_no_functions() {
    assert!(Trans::parse_mir(vec![]).is_empty());
}

#[test]
fn parse_mir_successors_follow_block_positions() {
    // Block 0 branches to 1 and 2; reverse postorder 0, 2, 1, 3 puts
    // block 2 before block 1.
    let raw = RawFn {
        name: "order".to_string(),
        blocks: vec![
            switch("switchInt(move _1) -> [0: bb1, otherwise: bb2]", &[(0, 1)], 2),
            goto("goto -> bb3", &[]),
            goto("goto -> bb3", &[]),
            goto("return", &[]),
        ],
        rpo: vec![0, 2, 1, 3],
        preds: vec![vec![], vec![0], vec![0], vec![1, 2]],
    };
    let out = Trans::parse_mir(vec![raw]);
    let f = &out[0];
    assert_eq!(f.blocks[0].block_name, 0);
    assert_eq!(f.blocks[0].suc_blocks, vec![2, 1]);
    assert_eq!(f.blocks[1].block_name, 2);
    assert_eq!(f.blocks[1].suc_blocks, vec![3]);
    for j in 0..f.blocks.len() {
        for k in 0..f.blocks.len() {
            let s = f.blocks[k].suc_blocks.iter().filter(|&&x| x == f.blocks[j].block_name).count();
            let p = f.blocks[j].pre_blocks.iter().filter(|&&x| x == f.blocks[k].block_name).count();
            assert_eq!(s, p);
        }
    }
}
