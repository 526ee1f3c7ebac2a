use prison::assembler::assemble;

#[test]
fn assemble_play_cooperate() {
    let bytes = assemble("PLAY COOPERATE").unwrap();
    assert_eq!(bytes, &[0x70]);
}

#[test]
fn assemble_play_defect() {
    let bytes = assemble("PLAY DEFECT").unwrap();
    assert_eq!(bytes, &[0x71]);
}

#[test]
fn assemble_error_returns_err() {
    assert!(assemble("NOT_AN_INSTRUCTION").is_err());
}

#[test]
fn assemble_several_lines_with_comments() {
    let src = "; alternate\nPLAY DEFECT\nPLAY COOPERATE ; second\n";
    assert_eq!(assemble(src).unwrap(), vec![0x71, 0x70]);
}

#[test]
fn assemble_empty_source_is_empty_program() {
    assert_eq!(assemble("").unwrap(), Vec::<u8>::new());
}

#[test]
fn assemble_error_text_is_not_empty() {
    let text = assemble("PLAY SOMETIMES").unwrap_err();
    assert!(!text.is_empty());
}

#[test]
fn assemble_error_text_names_input_file() {
    let text = assemble("NOT_AN_INSTRUCTION").unwrap_err();
    assert!(text.contains("input.asm"), "{text}");
}
