use prison::assembler::assemble;
use prison::decoder::decode;
use prison::tournament::run_tournament;
use prison::vm::{Action, Opcode, VmError};

const COOP: &str = "; Always cooperates.\nPLAY COOPERATE\n";
const DEFECT: &str = "; Always defects.\nPLAY DEFECT\n";

fn compile(name: &str, src: &str) -> (String, Vec<Opcode>) {
    let bytes = assemble(src).expect("assembly failed");
    (name.to_string(), decode(&bytes).expect("decode failed"))
}

#[test]
fn all_cooperate_equal_scores() {
    let strategies = vec![
        compile("a", COOP),
        compile("b", COOP),
        compile("c", COOP),
    ];
    let result = run_tournament(&strategies, 10, 1).unwrap();
    // Each plays 2 matches against other cooperators: 10*3*2 = 60 per strategy
    let scores: Vec<i32> = result.standings.iter().map(|(_, s)| *s).collect();
    assert!(scores.iter().all(|&s| s == 60), "expected 60 each, got {scores:?}");
}

#[test]
fn defect_beats_cooperate() {
    let strategies = vec![
        compile("coop", COOP),
        compile("defect", DEFECT),
    ];
    let result = run_tournament(&strategies, 1, 1).unwrap();
    let defect_score = result.standings.iter().find(|(n, _)| n == "defect").unwrap().1;
    let coop_score  = result.standings.iter().find(|(n, _)| n == "coop").unwrap().1;
    assert!(defect_score > coop_score);
    assert_eq!(result.standings[0].0, "defect");
}

#[test]
fn single_strategy_no_matches() {
    let strategies = vec![compile("lone", COOP)];
    let result = run_tournament(&strategies, 10, 1).unwrap();
    assert_eq!(result.standings[0].1, 0);
}

#[test]
fn no_strategies_no_standings() {
    let strategies: Vec<(String, Vec<Opcode>)> = vec![];
    assert!(run_tournament(&strategies, 10, 1).unwrap().standings.is_empty());
}

// Equal scores keep the strategies' order; the ranking is by score, highest first.
#[test]
fn ties_keep_input_order() {
    let strategies = vec![
        compile("c1", COOP),
        compile("d1", DEFECT),
        compile("c2", COOP),
        compile("d2", DEFECT),
    ];
    let result = run_tournament(&strategies, 2, 4).unwrap();
    let names: Vec<&str> = result.standings.iter().map(|(n, _)| n.as_str()).collect();
    // Each defector: 2 rounds * 5 * 2 cooperators + 2 * 1 vs the other defector = 22.
    // Each cooperator: 2 * 3 vs the other cooperator + 0 vs defectors = 6.
    assert_eq!(names, vec!["d1", "d2", "c1", "c2"]);
    let scores: Vec<i32> = result.standings.iter().map(|(_, s)| *s).collect();
    assert_eq!(scores, vec![22, 22, 6, 6]);
}

#[test]
fn scores_are_sums_of_match_totals() {
    let coin = vec![
        Opcode::Rdrand { rd: 0 },
        Opcode::Test { rd: 0, imm: 1 },
        Opcode::Jeq(4),
        Opcode::Play(Action::Defect),
        Opcode::Play(Action::Cooperate),
    ];
    let strategies = vec![
        ("x".to_string(), coin.clone()),
        compile("c", COOP),
        ("y".to_string(), coin),
    ];
    let rounds = 12;
    let seed = 77u64;
    let n = strategies.len();
    let mut expected = vec![0i32; n];
    for i in 0..n {
        for j in (i + 1)..n {
            let s = seed.wrapping_add((i * n + j) as u64).wrapping_mul(0x9e3779b97f4a7c15);
            let m = prison::match_runner::run_match(&strategies[i].1, &strategies[j].1, rounds, s).unwrap();
            expected[i] += m.total_a;
            expected[j] += m.total_b;
        }
    }
    let result = run_tournament(&strategies, rounds, seed).unwrap();
    for (name, score) in &result.standings {
        let k = strategies.iter().position(|(n, _)| n == name).unwrap();
        assert_eq!(*score, expected[k]);
    }
    for w in result.standings.windows(2) {
        assert!(w[0].1 >= w[1].1);
    }
}

#[test]
fn failing_strategy_stops_tournament() {
    let strategies = vec![compile("coop", COOP), ("broken".to_string(), vec![])];
    assert_eq!(run_tournament(&strategies, 3, 1).err(), Some(VmError::PcOutOfBounds));
}
