//! The strategy virtual machine: four signed 8-bit registers, comparison
//! flags, a program counter and a xorshift random number generator.
use vstd::prelude::*;

verus! {

/// How many instructions a strategy may execute in one round before it is
/// considered to have cooperated.
pub const INSTRUCTION_BUDGET: usize = 256;

/// What a strategy plays in a round.
#[derive(Debug, Clone, Copy, PartialEq, Eq, Structural)]
pub enum Action {
    Cooperate,
    Defect,
}

/// One decoded instruction.
#[derive(Debug, Clone, Copy)]
pub enum Opcode {
    Rdrand { rd: u8 },
    Cmpi { ra: u8, imm: i8 },
    Test { rd: u8, imm: i8 },
    Jeq(u8),
    Play(Action),
}

/// Why a round could not be completed.
#[derive(Debug, PartialEq, Eq, Structural)]
pub enum VmError {
    PcOutOfBounds,
}

/// The text of a machine error, as `{:?}` prints it.
pub open spec fn vm_error_text(e: VmError) -> Seq<char> {
    match e {
        VmError::PcOutOfBounds => "PcOutOfBounds"@,
    }
}

impl VmError {
    /// The error's text, as `{:?}` prints it.
    pub fn debug_text(&self) -> (s: String)
        ensures
            s@ == vm_error_text(*self),
    {
        match self {
            VmError::PcOutOfBounds => String::from_str("PcOutOfBounds"),
        }
    }
}

struct Flags {
    eq: bool,
    lt: bool,
    gt: bool,
}

/// A strategy's machine. Registers, flags and the random state persist from
/// one round to the next; the program counter restarts at 0 each round.
pub struct Vm {
    regs: [i8; 4],
    pc: u8,
    flags: Flags,
    rng: u64,
}

/// The abstract state of a [`Vm`].
pub struct VmState {
    pub regs: Seq<i8>,
    pub pc: u8,
    pub eq: bool,
    pub lt: bool,
    pub gt: bool,
    pub rng: u64,
}

impl View for Vm {
    type V = VmState;

    closed spec fn view(&self) -> VmState {
        VmState {
            regs: self.regs@,
            pc: self.pc,
            eq: self.flags.eq,
            lt: self.flags.lt,
            gt: self.flags.gt,
            rng: self.rng,
        }
    }
}

impl Vm {
    /// The generator state of a machine is never zero.
    #[verifier::type_invariant]
    spec fn rng_live(self) -> bool {
        self.rng != 0
    }
}

/// One step of the xorshift64 generator (shifts 13, 7, 17).
pub open spec fn xorshift_next(x: u64) -> u64 {
    let a = x ^ (x << 13u64);
    let b = a ^ (a >> 7u64);
    b ^ (b << 17u64)
}

/// The state of a freshly created machine.
pub open spec fn initial_state(seed: u64) -> VmState {
    VmState {
        regs: seq![0i8, 0i8, 0i8, 0i8],
        pc: 0,
        eq: false,
        lt: false,
        gt: false,
        rng: if seed == 0 { 1 } else { seed },
    }
}

/// The program counter after a non-jumping instruction (wraps at 256).
pub open spec fn next_pc(pc: u8) -> u8 {
    vstd::wrapping::u8_specs::wrapping_add(pc, 1)
}

/// An instruction names a register only among `R0`-`R3`.
pub open spec fn registers_valid(op: Opcode) -> bool {
    match op {
        Opcode::Rdrand { rd } => rd < 4,
        Opcode::Cmpi { ra, imm: _ } => ra < 4,
        Opcode::Test { rd, imm: _ } => rd < 4,
        _ => true,
    }
}

/// The state after a comparison that sets the three flags and moves on.
pub open spec fn flags_after(s: VmState, eq: bool, lt: bool, gt: bool) -> VmState {
    VmState { regs: s.regs, pc: next_pc(s.pc), eq, lt, gt, rng: s.rng }
}

/// Executing one instruction (with valid registers): the next state, and the
/// action if the instruction plays.
pub open spec fn step(s: VmState, op: Opcode) -> (VmState, Option<Action>) {
    match op {
        Opcode::Rdrand { rd } => {
            let r = xorshift_next(s.rng);
            (
                VmState {
                    regs: s.regs.update(rd as int, r as i8),
                    pc: next_pc(s.pc),
                    eq: s.eq,
                    lt: s.lt,
                    gt: s.gt,
                    rng: r,
                },
                None,
            )
        },
        Opcode::Cmpi { ra, imm } => {
            let a = s.regs[ra as int];
            (flags_after(s, a == imm, a < imm, a > imm), None)
        },
        Opcode::Test { rd, imm } => {
            let r = s.regs[rd as int] & imm;
            (flags_after(s, r == 0, r < 0, r > 0), None)
        },
        Opcode::Jeq(target) => (
            VmState {
                regs: s.regs,
                pc: if s.eq { target } else { next_pc(s.pc) },
                eq: s.eq,
                lt: s.lt,
                gt: s.gt,
                rng: s.rng,
            },
            None,
        ),
        Opcode::Play(action) => (s, Some(action)),
    }
}

/// Running `program` from state `s` for at most `fuel` instructions: the
/// result of the round and the final state, or `None` where an instruction
/// names a register beyond `R3`.
pub open spec fn run_steps(s: VmState, program: Seq<Opcode>, fuel: nat) -> Option<
    (Result<Action, VmError>, VmState),
>
    decreases fuel,
{
    if fuel == 0 {
        Some((Ok(Action::Cooperate), s))
    } else if s.pc >= program.len() {
        Some((Err(VmError::PcOutOfBounds), s))
    } else {
        let op = program[s.pc as int];
        if !registers_valid(op) {
            None
        } else {
            let (s2, played) = step(s, op);
            match played {
                Some(a) => Some((Ok(a), s2)),
                None => run_steps(s2, program, (fuel - 1) as nat),
            }
        }
    }
}

/// The state with the program counter reset to the start.
pub open spec fn at_start(s: VmState) -> VmState {
    VmState { regs: s.regs, pc: 0, eq: s.eq, lt: s.lt, gt: s.gt, rng: s.rng }
}

/// One round from state `s`: the program runs from its first instruction
/// within the instruction budget.
pub open spec fn round_outcome(s: VmState, program: Seq<Opcode>) -> Option<
    (Result<Action, VmError>, VmState),
> {
    run_steps(at_start(s), program, INSTRUCTION_BUDGET as nat)
}

/// Xorshift maps a nonzero state to a nonzero state (each of its three
/// steps is invertible and fixes zero).
pub proof fn lemma_xorshift_nonzero(x: u64)
    requires
        x != 0,
    ensures
        xorshift_next(x) != 0,
{
    let a = x ^ (x << 13u64);
    let b = a ^ (a >> 7u64);
    assert(x != 0 ==> x ^ (x << 13u64) != 0) by (bit_vector);
    assert(a != 0 ==> a ^ (a >> 7u64) != 0) by (bit_vector);
    assert(b != 0 ==> b ^ (b << 17u64) != 0) by (bit_vector);
}

/// `x` with a copy of itself shifted left by `k` mixed in.
pub open spec fn mix_left(x: u64, k: u64) -> u64 {
    x ^ (x << k)
}

/// `x` with a copy of itself shifted right by `k` mixed in.
pub open spec fn mix_right(x: u64, k: u64) -> u64 {
    x ^ (x >> k)
}

/// Undoes `mix_left(_, 13)`.
pub open spec fn unmix_left_13(y: u64) -> u64 {
    y ^ (y << 13u64) ^ (y << 26u64) ^ (y << 39u64) ^ (y << 52u64)
}

/// Undoes `mix_right(_, 7)`.
pub open spec fn unmix_right_7(y: u64) -> u64 {
    y ^ (y >> 7u64) ^ (y >> 14u64) ^ (y >> 21u64) ^ (y >> 28u64) ^ (y >> 35u64) ^ (y
        >> 42u64) ^ (y >> 49u64) ^ (y >> 56u64) ^ (y >> 63u64)
}

/// Undoes `mix_left(_, 17)`.
pub open spec fn unmix_left_17(y: u64) -> u64 {
    y ^ (y << 17u64) ^ (y << 34u64) ^ (y << 51u64)
}

/// One generator step is xorshift64 with the shifts 13, 7 and 17, in that
/// order; it is a bijection on `u64`, undone by reversing the three mixes;
/// and from state 1 it gives 0x40822041.
pub proof fn lemma_xorshift_step(x: u64)
    ensures
        xorshift_next(x) == mix_left(mix_right(mix_left(x, 13), 7), 17),
        unmix_left_13(unmix_right_7(unmix_left_17(xorshift_next(x)))) == x,
        xorshift_next(1) == 0x40822041u64,
{
    let a = mix_left(x, 13);
    let b = mix_right(a, 7);
    let c = mix_left(b, 17);
    assert(c == xorshift_next(x));
    assert(unmix_left_17(mix_left(b, 17)) == b) by (bit_vector);
    assert(unmix_right_7(mix_right(a, 7)) == a) by (bit_vector);
    assert(unmix_left_13(mix_left(x, 13)) == x) by (bit_vector);
    assert(xorshift_next(1) == 0x40822041u64) by (bit_vector);
}

/// The program counter one instruction on, wrapping from 255 to 0.
pub open spec fn pc_after(pc: u8) -> int {
    if pc == 255 {
        0
    } else {
        pc + 1
    }
}

/// CMPI compares a register with an immediate: afterwards `eq`, `lt` and `gt`
/// say whether the register is equal to, below or above the immediate; the
/// registers and the generator are kept, nothing is played, and the program
/// moves on one instruction.
pub proof fn lemma_compare_immediate_law(s: VmState, ra: u8, imm: i8)
    requires
        ra < 4,
    ensures
        ({
            let (t, played) = step(s, Opcode::Cmpi { ra, imm });
            &&& played is None
            &&& t.eq == (s.regs[ra as int] == imm)
            &&& t.lt == (s.regs[ra as int] < imm)
            &&& t.gt == (s.regs[ra as int] > imm)
            &&& t.regs == s.regs
            &&& t.rng == s.rng
            &&& t.pc == pc_after(s.pc)
        }),
{
}

/// TEST masks a register with an immediate: afterwards `eq` says the masked
/// value is zero and `lt`/`gt` give its sign; registers and generator are
/// kept, and the program moves on one instruction.
pub proof fn lemma_test_law(s: VmState, rd: u8, imm: i8)
    requires
        rd < 4,
    ensures
        ({
            let (t, played) = step(s, Opcode::Test { rd, imm });
            &&& played is None
            &&& t.eq == ((s.regs[rd as int] & imm) == 0)
            &&& t.lt == ((s.regs[rd as int] & imm) < 0)
            &&& t.gt == ((s.regs[rd as int] & imm) > 0)
            &&& t.regs == s.regs
            &&& t.rng == s.rng
            &&& t.pc == pc_after(s.pc)
        }),
{
}

/// JEQ changes only the program counter: it goes to the target when `eq` is
/// set and one instruction on otherwise; the flags, registers and generator
/// stay as they were.
pub proof fn lemma_jeq_law(s: VmState, target: u8)
    ensures
        ({
            let (t, played) = step(s, Opcode::Jeq(target));
            &&& played is None
            &&& t.pc == if s.eq { target as int } else { pc_after(s.pc) }
            &&& t.eq == s.eq
            &&& t.lt == s.lt
            &&& t.gt == s.gt
            &&& t.regs == s.regs
            &&& t.rng == s.rng
        }),
{
}

/// RDRAND advances the generator one xorshift64 step (shifts 13, 7, 17) and
/// writes the low byte of the new state to the register; the flags are kept
/// and the program moves on one instruction.
pub proof fn lemma_rdrand_law(s: VmState, rd: u8)
    requires
        rd < 4,
    ensures
        ({
            let (t, played) = step(s, Opcode::Rdrand { rd });
            let r = mix_left(mix_right(mix_left(s.rng, 13), 7), 17);
            &&& played is None
            &&& t.rng == r
            &&& t.regs == s.regs.update(rd as int, r as i8)
            &&& t.eq == s.eq
            &&& t.lt == s.lt
            &&& t.gt == s.gt
            &&& t.pc == pc_after(s.pc)
        }),
{
    lemma_xorshift_step(s.rng);
}

/// PLAY ends the round with its action and changes nothing.
pub proof fn lemma_play_law(s: VmState, action: Action)
    ensures
        step(s, Opcode::Play(action)) == (s, Some(action)),
{
}

/// An instruction that only compares: CMPI or TEST with a valid register.
pub open spec fn compares_only(op: Opcode) -> bool {
    match op {
        Opcode::Cmpi { ra, imm: _ } => ra < 4,
        Opcode::Test { rd, imm: _ } => rd < 4,
        _ => false,
    }
}

proof fn lemma_straight_line_steps(s: VmState, program: Seq<Opcode>, fuel: nat)
    requires
        program.len() >= INSTRUCTION_BUDGET,
        forall|i: int| 0 <= i < INSTRUCTION_BUDGET ==> compares_only(#[trigger] program[i]),
        s.pc + fuel == INSTRUCTION_BUDGET,
    ensures
        run_steps(s, program, fuel) matches Some((Ok(a), t)) && a == Action::Cooperate && t.pc
            == 0 && t.regs == s.regs && t.rng == s.rng,
    decreases fuel,
{
    let op = program[s.pc as int];
    assert(compares_only(op));
    let (s2, played) = step(s, op);
    if fuel > 1 {
        lemma_straight_line_steps(s2, program, (fuel - 1) as nat);
    }
}

/// The instruction budget is 256: a round of a program whose first 256
/// instructions only compare runs all of them, wraps the program counter
/// back to 0, and cooperates, keeping the registers and the generator.
pub proof fn lemma_budget_exhausted_cooperates(s: VmState, program: Seq<Opcode>)
    requires
        program.len() >= INSTRUCTION_BUDGET,
        forall|i: int| 0 <= i < INSTRUCTION_BUDGET ==> compares_only(#[trigger] program[i]),
    ensures
        round_outcome(s, program) matches Some((Ok(a), t)) && a == Action::Cooperate && t.pc == 0
            && t.regs == s.regs && t.rng == s.rng,
{
    lemma_straight_line_steps(at_start(s), program, INSTRUCTION_BUDGET as nat);
}

/// A round that loops on a taken jump to the start never plays and gives up
/// cooperating, leaving the state as it was (but for the program counter).
pub proof fn lemma_loop_cooperates(s: VmState, program: Seq<Opcode>)
    requires
        program.len() > 0,
        program[0] == Opcode::Jeq(0),
        s.eq,
    ensures
        round_outcome(s, program) == Some((Ok::<Action, VmError>(Action::Cooperate), at_start(s))),
{
    lemma_loop_steps(s, program, INSTRUCTION_BUDGET as nat);
}

proof fn lemma_loop_steps(s: VmState, program: Seq<Opcode>, fuel: nat)
    requires
        program.len() > 0,
        program[0] == Opcode::Jeq(0),
        s.eq,
    ensures
        run_steps(at_start(s), program, fuel) == Some(
            (Ok::<Action, VmError>(Action::Cooperate), at_start(s)),
        ),
    decreases fuel,
{
    if fuel > 0 {
        assert(step(at_start(s), program[0]).0 == at_start(s));
        lemma_loop_steps(s, program, (fuel - 1) as nat);
    }
}

/// A round that plays an action either met a PLAY of that action in the
/// program, or ran out of budget and cooperated.
pub proof fn lemma_played_action_is_in_program(s: VmState, program: Seq<Opcode>, fuel: nat)
    ensures
        run_steps(s, program, fuel) matches Some((Ok(a), _)) ==> a == Action::Cooperate
            || exists|i: int| 0 <= i < program.len() && #[trigger] program[i] == Opcode::Play(a),
    decreases fuel,
{
    if fuel > 0 && s.pc < program.len() {
        let op = program[s.pc as int];
        if registers_valid(op) {
            let (s2, played) = step(s, op);
            if played is None {
                lemma_played_action_is_in_program(s2, program, (fuel - 1) as nat);
            }
        }
    }
}

/// A new machine's generator state is nonzero, whatever the seed.
pub proof fn lemma_initial_rng_nonzero(seed: u64)
    ensures
        initial_state(seed).rng != 0,
{
}

/// Running instructions from a nonzero generator state leaves it nonzero.
pub proof fn lemma_steps_keep_rng_nonzero(s: VmState, program: Seq<Opcode>, fuel: nat)
    requires
        s.rng != 0,
        run_steps(s, program, fuel) is Some,
    ensures
        run_steps(s, program, fuel).unwrap().1.rng != 0,
    decreases fuel,
{
    if fuel > 0 && s.pc < program.len() {
        let op = program[s.pc as int];
        if let Opcode::Rdrand { rd } = op {
            lemma_xorshift_nonzero(s.rng);
        }
        let (s2, played) = step(s, op);
        if played is None {
            lemma_steps_keep_rng_nonzero(s2, program, (fuel - 1) as nat);
        }
    }
}

/// A round never leaves the generator in state zero, so a machine's random
/// numbers never get stuck at zero across the rounds of a match.
pub proof fn lemma_round_keeps_rng_nonzero(s: VmState, program: Seq<Opcode>)
    requires
        s.rng != 0,
        round_outcome(s, program) is Some,
    ensures
        round_outcome(s, program).unwrap().1.rng != 0,
{
    lemma_steps_keep_rng_nonzero(at_start(s), program, INSTRUCTION_BUDGET as nat);
}

/// A round of a program whose first instruction plays an action plays that
/// action; a round of the empty program fails.
pub proof fn lemma_round_first_play(s: VmState, program: Seq<Opcode>)
    ensures
        program.len() > 0 && program[0] is Play ==> round_outcome(s, program) == Some(
            (Ok::<Action, VmError>(program[0]->Play_0), at_start(s)),
        ),
        program.len() == 0 ==> round_outcome(s, program) matches Some(
            (Err(VmError::PcOutOfBounds), _),
        ),
{
}

/// Every instruction of the program names registers among `R0`-`R3`.
pub open spec fn program_registers_valid(program: Seq<Opcode>) -> bool {
    forall|i: int| 0 <= i < program.len() ==> registers_valid(#[trigger] program[i])
}

/// Running a program whose instructions all name valid registers never
/// panics.
pub proof fn lemma_valid_program_steps(s: VmState, program: Seq<Opcode>, fuel: nat)
    requires
        program_registers_valid(program),
    ensures
        run_steps(s, program, fuel) is Some,
    decreases fuel,
{
    if fuel > 0 && s.pc < program.len() {
        let (s2, played) = step(s, program[s.pc as int]);
        if played is None {
            lemma_valid_program_steps(s2, program, (fuel - 1) as nat);
        }
    }
}

/// A round of a program whose instructions all name valid registers never
/// panics, whatever the machine's state.
pub proof fn lemma_valid_program_round(s: VmState, program: Seq<Opcode>)
    requires
        program_registers_valid(program),
    ensures
        round_outcome(s, program) is Some,
{
    lemma_valid_program_steps(at_start(s), program, INSTRUCTION_BUDGET as nat);
}

/// No instruction of the program is `RDRAND`.
pub open spec fn without_rdrand(program: Seq<Opcode>) -> bool {
    forall|i: int| 0 <= i < program.len() ==> !(#[trigger] program[i] is Rdrand)
}

/// Running a program without `RDRAND` changes neither the registers nor the
/// generator state.
pub proof fn lemma_steps_without_rdrand(s: VmState, program: Seq<Opcode>, fuel: nat)
    requires
        without_rdrand(program),
    ensures
        run_steps(s, program, fuel) matches Some((_, s2)) ==> s2.regs == s.regs && s2.rng
            == s.rng,
    decreases fuel,
{
    if fuel > 0 && s.pc < program.len() {
        let op = program[s.pc as int];
        assert(!(op is Rdrand));
        let (s2, played) = step(s, op);
        if played is None {
            lemma_steps_without_rdrand(s2, program, (fuel - 1) as nat);
        }
    }
}

/// A round of a program without `RDRAND` changes only the program counter
/// and the flags: the registers and the generator state carry over to the
/// next round unchanged.
pub proof fn lemma_round_without_rdrand(s: VmState, program: Seq<Opcode>)
    requires
        without_rdrand(program),
    ensures
        round_outcome(s, program) matches Some((_, s2)) ==> s2.regs == s.regs && s2.rng
            == s.rng,
{
    lemma_steps_without_rdrand(at_start(s), program, INSTRUCTION_BUDGET as nat);
}

/// Advances the generator state and returns the new value.
fn xorshift64(state: &mut u64) -> (r: u64)
    ensures
        *final(state) == xorshift_next(*old(state)),
        r == *final(state),
        *old(state) != 0 ==> r != 0,
    no_unwind
{
    proof {
        if *old(state) != 0 {
            lemma_xorshift_nonzero(*old(state));
        }
    }
    *state = *state ^ (*state << 13u64);
    *state = *state ^ (*state >> 7u64);
    *state = *state ^ (*state << 17u64);
    *state
}

impl Vm {
    /// A machine with zeroed registers and flags; a zero seed is replaced by 1.
    pub fn new(seed: u64) -> (vm: Self)
        ensures
            vm@ == initial_state(seed),
    {
        let vm = Self {
            regs: [0i8, 0i8, 0i8, 0i8],
            pc: 0,
            flags: Flags { eq: false, lt: false, gt: false },
            rng: if seed == 0 {
                1
            } else {
                seed
            },
        };
        assert(vm.regs@ =~= seq![0i8, 0i8, 0i8, 0i8]);
        vm
    }

    /// The four registers `R0`-`R3`.
    pub fn regs(&self) -> (r: [i8; 4])
        ensures
            r@ == self@.regs,
            self@.rng != 0,
    {
        proof {
            use_type_invariant(self);
        }
        self.regs
    }

    /// Sets register `index` to `value`; everything else is kept.
    pub fn set_reg(&mut self, index: usize, value: i8)
        requires
            index < 4,
        ensures
            final(self)@ == (VmState { regs: old(self)@.regs.update(index as int, value), ..old(self)@ }),
            final(self)@.rng != 0,
    {
        proof {
            use_type_invariant(&*self);
        }
        self.regs[index] = value;
    }

    /// Runs one round of `program` and returns the action it played.
    pub fn run_round(&mut self, program: &[Opcode]) -> (r: Result<Action, VmError>)
        requires
            round_outcome(old(self)@, program@) is Some,
        ensures
            round_outcome(old(self)@, program@) == Some((r, final(self)@)),
            old(self)@.rng != 0,
            final(self)@.rng != 0,
    {
        proof {
            use_type_invariant(&*self);
            lemma_round_keeps_rng_nonzero(self@, program@);
        }
        self.pc = 0;
        let mut i: usize = 0;
        while i < INSTRUCTION_BUDGET
            invariant
                i <= INSTRUCTION_BUDGET,
                run_steps(self@, program@, (INSTRUCTION_BUDGET - i) as nat) == round_outcome(
                    old(self)@,
                    program@,
                ),
                round_outcome(old(self)@, program@) is Some,
                old(self)@.rng != 0,
                round_outcome(old(self)@, program@).unwrap().1.rng != 0,
            decreases INSTRUCTION_BUDGET - i,
        {
            if (self.pc as usize) < program.len() {
                let op = program[self.pc as usize];
                match self.execute(op) {
                    Some(action) => {
                        return Ok(action);
                    },
                    None => {},
                }
            } else {
                return Err(VmError::PcOutOfBounds);
            }
            i = i + 1;
        }
        Ok(Action::Cooperate)
    }

    fn execute(&mut self, op: Opcode) -> (played: Option<Action>)
        requires
            registers_valid(op),
        ensures
            step(old(self)@, op) == (final(self)@, played),
    {
        proof {
            use_type_invariant(&*self);
        }
        match op {
            Opcode::Rdrand { rd } => {
                let r = xorshift64(&mut self.rng);
                self.regs[rd as usize] = r as i8;
                self.pc = self.pc.wrapping_add(1);
                None
            },
            Opcode::Cmpi { ra, imm } => {
                let a = self.regs[ra as usize];
                self.flags.eq = a == imm;
                self.flags.lt = a < imm;
                self.flags.gt = a > imm;
                self.pc = self.pc.wrapping_add(1);
                None
            },
            Opcode::Test { rd, imm } => {
                let result = self.regs[rd as usize] & imm;
                self.flags.eq = result == 0;
                self.flags.lt = result < 0;
                self.flags.gt = result > 0;
                self.pc = self.pc.wrapping_add(1);
                None
            },
            Opcode::Jeq(target) => {
                self.pc = if self.flags.eq {
                    target
                } else {
                    self.pc.wrapping_add(1)
                };
                None
            },
            Opcode::Play(action) => Some(action),
        }
    }
}

} // verus!
