//! Assembling strategy source text into bytes, by the customasm assembler
//! with the prison instruction set.
use vstd::prelude::*;

verus! {

/// The instruction set, as a customasm rule definition. It is assembled in
/// front of every strategy.
pub const RULESET: &'static str = "#ruledef\n{\n    PLAY COOPERATE => 0x70\n    PLAY DEFECT => 0x71\n}\n";

/// What customasm makes of a source file: its binary output, or the text of
/// its diagnostics.
pub uninterp spec fn customasm_output(source: Seq<char>) -> Result<Seq<u8>, Seq<char>>;

/// A strategy text with no directive (`#`) and no block (`{`): only
/// instructions, labels, constants and comments.
pub open spec fn plain_strategy(src: Seq<char>) -> bool {
    forall|i: int| 0 <= i < src.len() ==> #[trigger] src[i] != '#' && src[i] != '{'
}

/// The text handed to the assembler: the instruction set, a line break, and
/// the strategy.
pub open spec fn assembly_source(src: Seq<char>) -> Seq<char> {
    RULESET@ + "\n"@ + src
}

/// The assembler gets the whole strategy: the instruction set, one line
/// break, then every character of the strategy, in order.
pub proof fn lemma_whole_strategy_assembled(src: Seq<char>)
    ensures
        assembly_source(src).len() == RULESET@.len() + 1 + src.len(),
        assembly_source(src).take(RULESET@.len() as int) == RULESET@,
        assembly_source(src)[RULESET@.len() as int] == '\n',
        assembly_source(src).skip(RULESET@.len() + 1int) == src,
{
    reveal_strlit("\n");
    assert(assembly_source(src).take(RULESET@.len() as int) =~= RULESET@);
    assert(assembly_source(src).skip(RULESET@.len() + 1int) =~= src);
}

/// Assembles `source` with `customasm::assemble_str_to_binary`, which
/// assembles it as the one in-memory file at handle 0. Where the report holds
/// any message the result is the report's text, printed without colours
/// against that file under the name `input.asm`; otherwise it is the output
/// in bytes (empty where there is no output). The contract only names this
/// result: what customasm computes is not restated here. `assemble_str_to_binary`
/// formats the output before the report is read, so a padding warning for an
/// output that is not a whole number of bytes makes the result an error.
/// customasm panics on some directives (a `#bankdef` with `bits = 0`
/// divides by zero when addresses are computed) and asserts unreachable
/// cases inside `asm { }` blocks, so the source is required to be the
/// instruction set followed by a strategy with neither directives nor blocks.
#[verifier::external_body]
fn customasm_assemble(source: &str) -> (r: Result<Vec<u8>, String>)
    requires
        exists|src: Seq<char>| plain_strategy(src) && source@ == assembly_source(src),
    ensures
        match r {
            Ok(bytes) => customasm_output(source@) == Ok::<Seq<u8>, Seq<char>>(bytes@),
            Err(text) => customasm_output(source@) == Err::<Seq<u8>, Seq<char>>(text@),
        },
{
    let (output, report) = customasm::assemble_str_to_binary(source);
    if report.has_errors() {
        let mut fileserver = customasm::util::FileServerMock::new();
        fileserver.add("input.asm", source);
        let mut buf = Vec::new();
        report.print_all(&mut buf, &fileserver, false);
        return Err(String::from_utf8_lossy(&buf).into_owned());
    }
    Ok(output.unwrap_or_default())
}

/// Assembles a strategy: the bytes of its program, or the assembler's
/// diagnostics.
pub fn assemble(src: &str) -> (r: Result<Vec<u8>, String>)
    requires
        plain_strategy(src@),
    ensures
        match r {
            Ok(bytes) => customasm_output(assembly_source(src@)) == Ok::<Seq<u8>, Seq<char>>(
                bytes@,
            ),
            Err(text) => customasm_output(assembly_source(src@)) == Err::<Seq<u8>, Seq<char>>(
                text@,
            ),
        },
{
    let mut combined = String::from_str(RULESET);
    combined.append("\n");
    combined.append(src);
    assert(combined@ == assembly_source(src@));
    customasm_assemble(combined.as_str())
}

} // verus!
