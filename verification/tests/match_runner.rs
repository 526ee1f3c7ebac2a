use prison::assembler::assemble;
use prison::decoder::decode;
use prison::match_runner::{payoff, run_match};
use prison::vm::{Action, Opcode, Vm, VmError};

const COOP: &str = "; Always cooperates.\nPLAY COOPERATE\n";
const DEFECT: &str = "; Always defects.\nPLAY DEFECT\n";

fn compile(src: &str) -> Vec<Opcode> {
    let bytes = assemble(src).expect("assembly failed");
    decode(&bytes).expect("decode failed")
}

// RDRAND R0; TEST R0, #1; JEQ 4; PLAY DEFECT; PLAY COOPERATE
fn coin() -> Vec<Opcode> {
    vec![
        Opcode::Rdrand { rd: 0 },
        Opcode::Test { rd: 0, imm: 1 },
        Opcode::Jeq(4),
        Opcode::Play(Action::Defect),
        Opcode::Play(Action::Cooperate),
    ]
}

#[test]
fn payoff_matrix() {
    assert_eq!(payoff(Action::Cooperate, Action::Cooperate), (3, 3));
    assert_eq!(payoff(Action::Cooperate, Action::Defect),    (0, 5));
    assert_eq!(payoff(Action::Defect,    Action::Cooperate), (5, 0));
    assert_eq!(payoff(Action::Defect,    Action::Defect),    (1, 1));
}

#[test]
fn coop_vs_defect_single_round() {
    let coop   = compile(COOP);
    let defect = compile(DEFECT);
    let result = run_match(&coop, &defect, 1, 1).unwrap();
    assert_eq!(result.total_a, 0);
    assert_eq!(result.total_b, 5);
}

#[test]
fn coop_vs_coop_accumulates_score() {
    let coop = compile(COOP);
    let result = run_match(&coop, &coop, 10, 1).unwrap();
    assert_eq!(result.total_a, 30);
    assert_eq!(result.total_b, 30);
}

#[test]
fn defect_vs_defect_accumulates_score() {
    let defect = compile(DEFECT);
    let result = run_match(&defect, &defect, 10, 1).unwrap();
    assert_eq!(result.total_a, 10);
    assert_eq!(result.total_b, 10);
}

#[test]
fn observation_round_increments() {
    let coop = compile(COOP);
    let result = run_match(&coop, &coop, 5, 1).unwrap();
    assert_eq!(result.rounds.len(), 5);
}

#[test]
fn payoff_is_symmetric() {
    for a in [Action::Cooperate, Action::Defect] {
        for b in [Action::Cooperate, Action::Defect] {
            let (x, y) = payoff(a, b);
            assert_eq!(payoff(b, a), (y, x));
        }
    }
}

#[test]
fn defection_dominates_but_cooperation_pays() {
    for b in [Action::Cooperate, Action::Defect] {
        assert!(payoff(Action::Defect, b).0 > payoff(Action::Cooperate, b).0);
    }
    assert!(payoff(Action::Cooperate, Action::Cooperate).0 > payoff(Action::Defect, Action::Defect).0);
}

#[test]
fn totals_are_sums_of_round_scores() {
    let coin = coin();
    let defect = compile(DEFECT);
    let result = run_match(&coin, &defect, 40, 5).unwrap();
    let sum_a: i32 = result.rounds.iter().map(|r| r.score_a as i32).sum();
    let sum_b: i32 = result.rounds.iter().map(|r| r.score_b as i32).sum();
    assert_eq!(result.total_a, sum_a);
    assert_eq!(result.total_b, sum_b);
    for r in &result.rounds {
        assert_eq!(payoff(r.action_a, r.action_b), (r.score_a, r.score_b));
        assert_eq!(r.action_b, Action::Defect);
    }
    assert!(result.rounds.iter().any(|r| r.action_a == Action::Cooperate));
    assert!(result.rounds.iter().any(|r| r.action_a == Action::Defect));
}

#[test]
fn self_play_is_even() {
    let coin = coin();
    let result = run_match(&coin, &coin, 25, 11).unwrap();
    assert_eq!(result.total_a, result.total_b);
    for r in &result.rounds {
        assert_eq!(r.action_a, r.action_b);
    }
}

#[test]
fn swapping_seats_mirrors_the_match() {
    let coin = coin();
    let coop = compile(COOP);
    let ab = run_match(&coin, &coop, 30, 3).unwrap();
    let ba = run_match(&coop, &coin, 30, 3).unwrap();
    assert_eq!(ab.total_a, ba.total_b);
    assert_eq!(ab.total_b, ba.total_a);
    for (x, y) in ab.rounds.iter().zip(ba.rounds.iter()) {
        assert_eq!(x.action_a, y.action_b);
        assert_eq!(x.action_b, y.action_a);
        assert_eq!(x.score_a, y.score_b);
    }
}

#[test]
fn zero_rounds_scores_nothing() {
    let coop = compile(COOP);
    let result = run_match(&coop, &coop, 0, 1).unwrap();
    assert!(result.rounds.is_empty());
    assert_eq!((result.total_a, result.total_b), (0, 0));
}

#[test]
fn failing_program_stops_match() {
    let coop = compile(COOP);
    let empty: Vec<Opcode> = vec![];
    assert_eq!(run_match(&coop, &empty, 3, 1).err(), Some(VmError::PcOutOfBounds));
    assert_eq!(run_match(&empty, &coop, 3, 1).err(), Some(VmError::PcOutOfBounds));
}

// A match is each machine's own run of successive rounds from the seed.
#[test]
fn match_is_two_solo_runs() {
    let coin = coin();
    let defect = compile(DEFECT);
    let result = run_match(&coin, &defect, 20, 9).unwrap();
    let mut va = Vm::new(9);
    let mut vb = Vm::new(9);
    for r in &result.rounds {
        assert_eq!(va.run_round(&coin).unwrap(), r.action_a);
        assert_eq!(vb.run_round(&defect).unwrap(), r.action_b);
    }
}
