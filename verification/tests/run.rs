use prison::vm::Action;
use prison::{run, run_program};

#[test]
fn run_cooperator() {
    assert_eq!(run("PLAY COOPERATE", 1).unwrap(), Action::Cooperate);
}

#[test]
fn run_defector_first_instruction_wins() {
    assert_eq!(run("PLAY DEFECT\nPLAY COOPERATE", 9).unwrap(), Action::Defect);
}

#[test]
fn run_assembler_error_is_err() {
    assert!(run("NOT_AN_INSTRUCTION", 1).is_err());
}

#[test]
fn run_empty_program_is_out_of_bounds() {
    assert_eq!(run("", 1).unwrap_err(), "PcOutOfBounds");
}

#[test]
fn run_program_unknown_byte() {
    assert_eq!(run_program(&[0x70, 0x05], 1).unwrap_err(), "UnknownOpcode(5)");
}

#[test]
fn run_program_plays_first_byte() {
    assert_eq!(run_program(&[0x71], 3).unwrap(), Action::Defect);
    assert_eq!(run_program(&[0x70, 0x71], 3).unwrap(), Action::Cooperate);
}
