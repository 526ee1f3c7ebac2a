//! An iterated prisoner's dilemma tournament whose strategies are small
//! programs run on a purpose-built virtual machine.
use vstd::prelude::*;

pub mod assembler;
pub mod decoder;
pub mod match_runner;
pub mod text;
pub mod tournament;
pub mod vm;

use crate::assembler::{assemble, assembly_source, customasm_output, plain_strategy};
use crate::decoder::{decode, decode_error_text, decode_spec, opcode_of, known_byte};
use crate::vm::{
    Action, Opcode, Vm, VmError, initial_state, lemma_round_first_play, round_outcome,
    vm_error_text,
};

verus! {

/// What running one round of the program `bytes` on a new machine seeded
/// with `seed` gives: the action, or the text of the decoding or machine
/// error.
pub open spec fn program_result(bytes: Seq<u8>, seed: u64, r: Result<Action, String>) -> bool {
    match decode_spec(bytes) {
        Err(e) => r matches Err(text) && text@ == decode_error_text(e),
        Ok(p) => match round_outcome(initial_state(seed), p) {
            Some((Ok(a), _)) => r matches Ok(b) && a == b,
            Some((Err(e), _)) => r matches Err(text) && text@ == vm_error_text(e),
            None => false,
        },
    }
}

/// Decodes the program `bytes` and runs one round of it on a new machine
/// seeded with `seed`.
pub fn run_program(bytes: &[u8], seed: u64) -> (r: Result<Action, String>)
    ensures
        program_result(bytes@, seed, r),
        bytes@.len() == 0 ==> (r matches Err(text) && text@ == vm_error_text(
            VmError::PcOutOfBounds,
        )),
        bytes@.len() > 0 && (forall|i: int| 0 <= i < bytes@.len() ==> known_byte(#[trigger] bytes@[i]))
            ==> (r matches Ok(a) && opcode_of(bytes@[0]) == Some(Opcode::Play(a))),
{
    let program = match decode(bytes) {
        Ok(p) => p,
        Err(e) => {
            return Err(e.debug_text());
        },
    };
    proof {
        lemma_round_first_play(initial_state(seed), program@);
        if bytes@.len() > 0 {
            assert(Some(program@[0]) == opcode_of(bytes@[0]));
        }
    }
    let mut vm = Vm::new(seed);
    match vm.run_round(program.as_slice()) {
        Ok(a) => Ok(a),
        Err(e) => Err(e.debug_text()),
    }
}

/// Assembles the strategy `src`, decodes it and runs one round of it on a
/// new machine seeded with `seed`.
pub fn run(src: &str, seed: u64) -> (r: Result<Action, String>)
    requires
        plain_strategy(src@),
    ensures
        match customasm_output(assembly_source(src@)) {
            Err(text) => r matches Err(t) && t@ == text,
            Ok(bytes) => program_result(bytes, seed, r),
        },
{
    let bytes = match assemble(src) {
        Ok(b) => b,
        Err(text) => {
            return Err(text);
        },
    };
    run_program(bytes.as_slice(), seed)
}

} // verus!
