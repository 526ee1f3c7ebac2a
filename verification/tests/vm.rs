use prison::vm::{Action, Opcode, Vm, VmError};

#[test]
fn play_cooperate() {
    let program = vec![Opcode::Play(Action::Cooperate)];
    assert_eq!(Vm::new(1).run_round(&program).unwrap(), Action::Cooperate);
}

#[test]
fn play_defect() {
    let program = vec![Opcode::Play(Action::Defect)];
    assert_eq!(Vm::new(1).run_round(&program).unwrap(), Action::Defect);
}

#[test]
fn cmpi_sets_flags() {
    // CMPI R0, #5 with R0=5 → eq; PLAY to observe we ran past it.
    let program = vec![
        Opcode::Cmpi { ra: 0, imm: 5 },
        Opcode::Jeq(3),
        Opcode::Play(Action::Defect),
        Opcode::Play(Action::Cooperate),
    ];
    let mut vm = Vm::new(1);
    vm.set_reg(0, 5);
    assert_eq!(vm.run_round(&program).unwrap(), Action::Cooperate);
}

#[test]
fn test_eq_when_masked_zero() {
    // TEST R0, #1 with R0=2 (even) → result 0 → eq flag → JEQ taken.
    let program = vec![
        Opcode::Test { rd: 0, imm: 1 },
        Opcode::Jeq(3),
        Opcode::Play(Action::Defect),
        Opcode::Play(Action::Cooperate),
    ];
    let mut vm = Vm::new(1);
    vm.set_reg(0, 2);
    assert_eq!(vm.run_round(&program).unwrap(), Action::Cooperate);
}

#[test]
fn test_not_eq_when_masked_nonzero() {
    // TEST R0, #1 with R0=3 (odd) → result 1 → eq flag clear → JEQ not taken.
    let program = vec![
        Opcode::Test { rd: 0, imm: 1 },
        Opcode::Jeq(3),
        Opcode::Play(Action::Defect),
        Opcode::Play(Action::Cooperate),
    ];
    let mut vm = Vm::new(1);
    vm.set_reg(0, 3);
    assert_eq!(vm.run_round(&program).unwrap(), Action::Defect);
}

#[test]
fn jeq_taken_when_eq() {
    // CMPI R0, #0 with R0=0 sets eq; JEQ should jump over PLAY DEFECT.
    let program = vec![
        Opcode::Cmpi { ra: 0, imm: 0 },
        Opcode::Jeq(3),
        Opcode::Play(Action::Defect),
        Opcode::Play(Action::Cooperate),
    ];
    assert_eq!(Vm::new(1).run_round(&program).unwrap(), Action::Cooperate);
}

#[test]
fn jeq_not_taken_when_not_eq() {
    // CMPI R0, #1 with R0=0 clears eq; JEQ falls through to PLAY DEFECT.
    let program = vec![
        Opcode::Cmpi { ra: 0, imm: 1 },
        Opcode::Jeq(3),
        Opcode::Play(Action::Defect),
        Opcode::Play(Action::Cooperate),
    ];
    assert_eq!(Vm::new(1).run_round(&program).unwrap(), Action::Defect);
}

#[test]
fn rdrand_produces_both_outcomes() {
    // TEST R0, #1 checks the low bit — true 50/50 split from a random integer.
    //   0: RDRAND R0
    //   1: TEST R0, #1
    //   2: JEQ 4         (low bit 0 → even → cooperate)
    //   3: PLAY DEFECT
    //   4: PLAY COOPERATE
    let program = vec![
        Opcode::Rdrand { rd: 0 },
        Opcode::Test { rd: 0, imm: 1 },
        Opcode::Jeq(4),
        Opcode::Play(Action::Defect),
        Opcode::Play(Action::Cooperate),
    ];
    let outcomes: Vec<Action> = (1u64..=64)
        .map(|seed| Vm::new(seed).run_round(&program).unwrap())
        .collect();
    assert!(outcomes.contains(&Action::Cooperate));
    assert!(outcomes.contains(&Action::Defect));
}

// The xorshift64 state for seed 1 after one step is 0x40822041, so RDRAND
// writes its low byte 0x41 = 65.
#[test]
fn rdrand_writes_low_byte_of_xorshift() {
    let program = vec![Opcode::Rdrand { rd: 2 }, Opcode::Play(Action::Cooperate)];
    let mut vm = Vm::new(1);
    assert_eq!(vm.run_round(&program).unwrap(), Action::Cooperate);
    assert_eq!(vm.regs(), [0, 0, 65, 0]);
}

// Seed 0 is replaced by 1: both machines draw the same numbers.
#[test]
fn zero_seed_behaves_as_seed_one() {
    let program = vec![Opcode::Rdrand { rd: 0 }, Opcode::Rdrand { rd: 1 }, Opcode::Play(Action::Defect)];
    let mut a = Vm::new(0);
    let mut b = Vm::new(1);
    a.run_round(&program).unwrap();
    b.run_round(&program).unwrap();
    assert_eq!(a.regs(), b.regs());
    assert_ne!(a.regs()[0], 0);
}

// The generator keeps moving across rounds: registers persist and the state
// never sticks at zero.
#[test]
fn rdrand_state_persists_across_rounds() {
    let program = vec![Opcode::Rdrand { rd: 0 }, Opcode::Play(Action::Cooperate)];
    let mut vm = Vm::new(7);
    let mut seen = Vec::new();
    for _ in 0..8 {
        vm.run_round(&program).unwrap();
        seen.push(vm.regs()[0]);
    }
    let first = seen[0];
    assert!(seen.iter().any(|&r| r != first));
}

#[test]
fn empty_program_is_out_of_bounds() {
    let program: Vec<Opcode> = vec![];
    assert_eq!(Vm::new(1).run_round(&program), Err(VmError::PcOutOfBounds));
}

#[test]
fn jump_past_end_is_out_of_bounds() {
    let program = vec![Opcode::Cmpi { ra: 0, imm: 0 }, Opcode::Jeq(9)];
    assert_eq!(Vm::new(1).run_round(&program), Err(VmError::PcOutOfBounds));
}

// A loop that never plays exhausts the instruction budget and cooperates.
#[test]
fn exhausted_budget_cooperates() {
    let program = vec![Opcode::Cmpi { ra: 0, imm: 0 }, Opcode::Jeq(0)];
    assert_eq!(Vm::new(1).run_round(&program).unwrap(), Action::Cooperate);
}

// Flags persist between rounds; the program counter restarts at 0.
#[test]
fn flags_persist_between_rounds() {
    let program = vec![Opcode::Jeq(2), Opcode::Play(Action::Defect), Opcode::Play(Action::Cooperate)];
    let mut vm = Vm::new(1);
    assert_eq!(vm.run_round(&program).unwrap(), Action::Defect);
    let setter = vec![Opcode::Cmpi { ra: 1, imm: 0 }, Opcode::Play(Action::Defect)];
    vm.run_round(&setter).unwrap();
    assert_eq!(vm.run_round(&program).unwrap(), Action::Cooperate);
}

#[test]
fn test_negative_result_clears_eq() {
    let program = vec![
        Opcode::Test { rd: 3, imm: -128 },
        Opcode::Jeq(3),
        Opcode::Play(Action::Defect),
        Opcode::Play(Action::Cooperate),
    ];
    let mut vm = Vm::new(1);
    vm.set_reg(3, -1);
    assert_eq!(vm.run_round(&program).unwrap(), Action::Defect);
}

#[test]
fn vm_error_text() {
    assert_eq!(VmError::PcOutOfBounds.debug_text(), format!("{:?}", VmError::PcOutOfBounds));
}

// A round without RDRAND keeps the registers (and the generator: a later
// RDRAND draws the same number as on a fresh machine).
#[test]
fn round_without_rdrand_keeps_registers_and_generator() {
    let plain = vec![Opcode::Cmpi { ra: 1, imm: 3 }, Opcode::Jeq(3), Opcode::Play(Action::Defect), Opcode::Play(Action::Cooperate)];
    let draw = vec![Opcode::Rdrand { rd: 0 }, Opcode::Play(Action::Cooperate)];
    let mut vm = Vm::new(5);
    vm.set_reg(1, 3);
    assert_eq!(vm.run_round(&plain).unwrap(), Action::Cooperate);
    assert_eq!(vm.regs(), [0, 3, 0, 0]);
    vm.run_round(&draw).unwrap();
    let mut fresh = Vm::new(5);
    fresh.run_round(&draw).unwrap();
    assert_eq!(vm.regs()[0], fresh.regs()[0]);
}
