//! Decoding of assembled strategy bytes into instructions.
use vstd::prelude::*;
use crate::vm::{Action, Opcode};
use crate::text::{decimal, decimal_text};

verus! {

/// Why a byte sequence is not a program.
#[derive(Debug, PartialEq, Eq, Structural)]
pub enum DecodeError {
    UnknownOpcode(u8),
}

/// The instruction a single byte encodes, if any.
pub open spec fn opcode_of(b: u8) -> Option<Opcode> {
    if b == 0x70 {
        Some(Opcode::Play(Action::Cooperate))
    } else if b == 0x71 {
        Some(Opcode::Play(Action::Defect))
    } else {
        None
    }
}

pub open spec fn known_byte(b: u8) -> bool {
    opcode_of(b) is Some
}

/// `k` is the position of the first byte that encodes no instruction.
pub open spec fn is_first_unknown(bytes: Seq<u8>, k: int) -> bool {
    &&& 0 <= k < bytes.len()
    &&& !known_byte(bytes[k])
    &&& forall|i: int| 0 <= i < k ==> known_byte(#[trigger] bytes[i])
}

/// The program a byte sequence encodes, byte by byte; or the first byte that
/// encodes nothing.
pub open spec fn decode_spec(bytes: Seq<u8>) -> Result<Seq<Opcode>, DecodeError> {
    if forall|i: int| 0 <= i < bytes.len() ==> known_byte(#[trigger] bytes[i]) {
        Ok(bytes.map_values(|b: u8| opcode_of(b).unwrap()))
    } else {
        let k = choose|k: int| is_first_unknown(bytes, k);
        Err(DecodeError::UnknownOpcode(bytes[k]))
    }
}

/// The text of an error, as `{:?}` prints it.
pub open spec fn decode_error_text(e: DecodeError) -> Seq<char> {
    match e {
        DecodeError::UnknownOpcode(b) => "UnknownOpcode("@ + decimal(b as nat) + ")"@,
    }
}

impl DecodeError {
    /// The error's text, as `{:?}` prints it.
    pub fn debug_text(&self) -> (s: String)
        ensures
            s@ == decode_error_text(*self),
    {
        match self {
            DecodeError::UnknownOpcode(b) => {
                let mut s = String::from_str("UnknownOpcode(");
                let digits = decimal_text(*b);
                s.append(digits.as_str());
                s.append(")");
                s
            },
        }
    }
}

/// Decodes a whole program; fails on the first byte that is no instruction.
pub fn decode(bytes: &[u8]) -> (r: Result<Vec<Opcode>, DecodeError>)
    ensures
        match r {
            Ok(p) => decode_spec(bytes@) == Ok::<Seq<Opcode>, DecodeError>(p@),
            Err(e) => decode_spec(bytes@) == Err::<Seq<Opcode>, DecodeError>(e),
        },
        r is Ok <==> forall|i: int| 0 <= i < bytes@.len() ==> known_byte(#[trigger] bytes@[i]),
        r matches Ok(p) ==> p@.len() == bytes@.len() && forall|i: int|
            0 <= i < bytes@.len() ==> Some(#[trigger] p@[i]) == opcode_of(bytes@[i]),
        r matches Err(DecodeError::UnknownOpcode(b)) ==> exists|k: int|
            is_first_unknown(bytes@, k) && b == bytes@[k],
{
    let mut instructions: Vec<Opcode> = Vec::new();
    let mut cursor: usize = 0;

    while cursor < bytes.len()
        invariant
            cursor <= bytes@.len(),
            instructions@.len() == cursor,
            forall|i: int| 0 <= i < cursor ==> known_byte(#[trigger] bytes@[i]),
            forall|i: int|
                0 <= i < cursor ==> Some(#[trigger] instructions@[i]) == opcode_of(bytes@[i]),
        decreases bytes@.len() - cursor,
    {
        match decode_one(bytes, cursor) {
            Ok((instr, width)) => {
                instructions.push(instr);
                cursor = cursor + width;
            },
            Err(e) => {
                proof {
                    assert(is_first_unknown(bytes@, cursor as int));
                    let k = choose|k: int| is_first_unknown(bytes@, k);
                    if k < cursor {
                        assert(known_byte(bytes@[k]));
                    }
                    if k > cursor {
                        assert(known_byte(bytes@[cursor as int]));
                    }
                    assert(k == cursor);
                }
                return Err(e);
            },
        }
    }
    proof {
        assert(instructions@ =~= bytes@.map_values(|b: u8| opcode_of(b).unwrap()));
    }
    Ok(instructions)
}

fn decode_one(bytes: &[u8], at: usize) -> (r: Result<(Opcode, usize), DecodeError>)
    requires
        at < bytes@.len(),
    ensures
        match opcode_of(bytes@[at as int]) {
            Some(op) => r == Ok::<(Opcode, usize), DecodeError>((op, 1usize)),
            None => r == Err::<(Opcode, usize), DecodeError>(
                DecodeError::UnknownOpcode(bytes@[at as int]),
            ),
        },
{
    match bytes[at] {
        0x70 => Ok((Opcode::Play(Action::Cooperate), 1)),
        0x71 => Ok((Opcode::Play(Action::Defect), 1)),
        b => Err(DecodeError::UnknownOpcode(b)),
    }
}

} // verus!
