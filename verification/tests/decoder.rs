use prison::assembler::assemble;
use prison::decoder::{decode, DecodeError};
use prison::vm::{Action, Opcode};

fn compile(src: &str) -> Vec<Opcode> {
    let bytes = assemble(src).expect("assembly failed");
    decode(&bytes).expect("decode failed")
}

#[test]
fn decode_play_cooperate() {
    let program = compile("PLAY COOPERATE");
    assert!(matches!(program[..], [Opcode::Play(Action::Cooperate)]));
}

#[test]
fn decode_play_defect() {
    let program = compile("PLAY DEFECT");
    assert!(matches!(program[..], [Opcode::Play(Action::Defect)]));
}

#[test]
fn decode_several_instructions_in_order() {
    let program = decode(&[0x71, 0x70, 0x71]).unwrap();
    assert!(matches!(
        program[..],
        [Opcode::Play(Action::Defect), Opcode::Play(Action::Cooperate), Opcode::Play(Action::Defect)]
    ));
}

#[test]
fn decode_empty_is_empty_program() {
    assert!(decode(&[]).unwrap().is_empty());
}

#[test]
fn decode_reports_first_unknown_byte() {
    assert_eq!(decode(&[0x70, 0x07, 0x99]).unwrap_err(), DecodeError::UnknownOpcode(0x07));
}

#[test]
fn decode_error_text_matches_debug() {
    for b in [0u8, 7, 9, 10, 42, 99, 100, 107, 255] {
        let e = DecodeError::UnknownOpcode(b);
        assert_eq!(e.debug_text(), format!("{:?}", e));
    }
}

#[test]
fn decode_error_text_exact() {
    assert_eq!(DecodeError::UnknownOpcode(255).debug_text(), "UnknownOpcode(255)");
    assert_eq!(DecodeError::UnknownOpcode(0).debug_text(), "UnknownOpcode(0)");
}
