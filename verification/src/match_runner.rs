//! Head-to-head matches between two strategies.
use vstd::prelude::*;
use crate::vm::{
    Action, Opcode, Vm, VmError, VmState, initial_state, lemma_valid_program_round,
    program_registers_valid, round_outcome,
};

verus! {

/// What happened in one round of a match.
pub struct RoundResult {
    pub action_a: Action,
    pub action_b: Action,
    pub score_a: i8,
    pub score_b: i8,
}

/// Every round of a match and each side's total score.
pub struct MatchResult {
    pub rounds: Vec<RoundResult>,
    pub total_a: i32,
    pub total_b: i32,
}

/// The payoff matrix: CC=(3,3), CD=(0,5), DC=(5,0), DD=(1,1).
pub open spec fn payoff_spec(a: Action, b: Action) -> (i8, i8) {
    match (a, b) {
        (Action::Cooperate, Action::Cooperate) => (3, 3),
        (Action::Cooperate, Action::Defect) => (0, 5),
        (Action::Defect, Action::Cooperate) => (5, 0),
        (Action::Defect, Action::Defect) => (1, 1),
    }
}

/// The scores of both players for one pair of actions.
pub fn payoff(a: Action, b: Action) -> (r: (i8, i8))
    ensures
        r == payoff_spec(a, b),
{
    match (a, b) {
        (Action::Cooperate, Action::Cooperate) => (3, 3),
        (Action::Cooperate, Action::Defect) => (0, 5),
        (Action::Defect, Action::Cooperate) => (5, 0),
        (Action::Defect, Action::Defect) => (1, 1),
    }
}

/// The state of a match after some rounds.
pub enum MatchState {
    /// Both machines and the rounds played so far.
    Running {
        vm_a: VmState,
        vm_b: VmState,
        rounds: Seq<RoundResult>,
        total_a: int,
        total_b: int,
    },
    /// A machine failed a round; the match ends with its error.
    Stopped(VmError),
    /// A program named a register beyond `R3`, or a total left the range of
    /// `i32`; running the match would panic.
    Panics,
}

/// The state after `k` rounds. Both machines start from `seed`; in each round
/// side A runs first, then side B, and both are scored by the payoff matrix.
pub open spec fn match_state(pa: Seq<Opcode>, pb: Seq<Opcode>, seed: u64, k: nat) -> MatchState
    decreases k,
{
    if k == 0 {
        MatchState::Running {
            vm_a: initial_state(seed),
            vm_b: initial_state(seed),
            rounds: seq![],
            total_a: 0,
            total_b: 0,
        }
    } else {
        match match_state(pa, pb, seed, (k - 1) as nat) {
            MatchState::Running { vm_a, vm_b, rounds, total_a, total_b } => {
                match round_outcome(vm_a, pa) {
                    None => MatchState::Panics,
                    Some((Err(e), _)) => MatchState::Stopped(e),
                    Some((Ok(x), vm_a2)) => match round_outcome(vm_b, pb) {
                        None => MatchState::Panics,
                        Some((Err(e), _)) => MatchState::Stopped(e),
                        Some((Ok(y), vm_b2)) => {
                            let (sa, sb) = payoff_spec(x, y);
                            let ta = total_a + sa;
                            let tb = total_b + sb;
                            if ta > i32::MAX || tb > i32::MAX {
                                MatchState::Panics
                            } else {
                                MatchState::Running {
                                    vm_a: vm_a2,
                                    vm_b: vm_b2,
                                    rounds: rounds.push(
                                        RoundResult {
                                            action_a: x,
                                            action_b: y,
                                            score_a: sa,
                                            score_b: sb,
                                        },
                                    ),
                                    total_a: ta,
                                    total_b: tb,
                                }
                            }
                        },
                    },
                }
            },
            other => other,
        }
    }
}

/// The sum of side A's scores over some rounds.
pub open spec fn sum_score_a(rounds: Seq<RoundResult>) -> int
    decreases rounds.len(),
{
    if rounds.len() == 0 {
        0
    } else {
        sum_score_a(rounds.drop_last()) + rounds.last().score_a
    }
}

/// The sum of side B's scores over some rounds.
pub open spec fn sum_score_b(rounds: Seq<RoundResult>) -> int
    decreases rounds.len(),
{
    if rounds.len() == 0 {
        0
    } else {
        sum_score_b(rounds.drop_last()) + rounds.last().score_b
    }
}

/// Every round is scored by the payoff matrix.
pub open spec fn rounds_scored(rounds: Seq<RoundResult>) -> bool {
    forall|i: int|
        0 <= i < rounds.len() ==> (#[trigger] rounds[i]).score_a == payoff_spec(
            rounds[i].action_a,
            rounds[i].action_b,
        ).0 && rounds[i].score_b == payoff_spec(rounds[i].action_a, rounds[i].action_b).1
}

/// Once a match has stopped (or would panic), later rounds change nothing.
pub proof fn lemma_match_state_absorbing(
    pa: Seq<Opcode>,
    pb: Seq<Opcode>,
    seed: u64,
    k1: nat,
    k2: nat,
)
    requires
        k1 <= k2,
        !(match_state(pa, pb, seed, k1) is Running),
    ensures
        match_state(pa, pb, seed, k2) == match_state(pa, pb, seed, k1),
    decreases k2,
{
    if k2 > k1 {
        lemma_match_state_absorbing(pa, pb, seed, k1, (k2 - 1) as nat);
    }
}

/// After `k` rounds of a running match there are `k` round records, each
/// scored by the payoff matrix, and each total is the sum of that side's
/// scores.
pub proof fn lemma_running_match(pa: Seq<Opcode>, pb: Seq<Opcode>, seed: u64, k: nat)
    ensures
        match_state(pa, pb, seed, k) matches MatchState::Running {
            rounds,
            total_a,
            total_b,
            ..
        } ==> {
            &&& rounds.len() == k
            &&& total_a == sum_score_a(rounds)
            &&& total_b == sum_score_b(rounds)
            &&& rounds_scored(rounds)
            &&& 0 <= total_a <= i32::MAX
            &&& 0 <= total_b <= i32::MAX
        },
    decreases k,
{
    if k > 0 {
        lemma_running_match(pa, pb, seed, (k - 1) as nat);
        if let MatchState::Running { rounds, .. } = match_state(pa, pb, seed, k) {
            if let MatchState::Running { rounds: prev, .. } = match_state(
                pa,
                pb,
                seed,
                (k - 1) as nat,
            ) {
                assert(rounds.drop_last() =~= prev);
            }
        }
    }
}

/// A match between programs whose instructions name only valid registers
/// never panics while `5 * k` fits in an `i32`; each side then has at most
/// `5 * k` points after `k` rounds.
pub proof fn lemma_valid_match_never_panics(pa: Seq<Opcode>, pb: Seq<Opcode>, seed: u64, k: nat)
    requires
        program_registers_valid(pa),
        program_registers_valid(pb),
        5 * k <= i32::MAX,
    ensures
        !(match_state(pa, pb, seed, k) is Panics),
        match_state(pa, pb, seed, k) matches MatchState::Running { total_a, total_b, .. } ==> 0
            <= total_a <= 5 * k && 0 <= total_b <= 5 * k,
    decreases k,
{
    if k > 0 {
        lemma_valid_match_never_panics(pa, pb, seed, (k - 1) as nat);
        if let MatchState::Running { vm_a, vm_b, .. } = match_state(pa, pb, seed, (k - 1) as nat) {
            lemma_valid_program_round(vm_a, pa);
            lemma_valid_program_round(vm_b, pb);
        }
    }
}

/// A machine of its own seeded with `seed`, after `k` successive rounds of
/// `program` (`None` where a round would panic).
pub open spec fn solo_state(program: Seq<Opcode>, seed: u64, k: nat) -> Option<VmState>
    decreases k,
{
    if k == 0 {
        Some(initial_state(seed))
    } else {
        match solo_state(program, seed, (k - 1) as nat) {
            Some(s) => match round_outcome(s, program) {
                Some((_, s2)) => Some(s2),
                None => None,
            },
            None => None,
        }
    }
}

/// What round `k` (from 0) of that machine returns.
pub open spec fn solo_result(program: Seq<Opcode>, seed: u64, k: nat) -> Option<
    Result<Action, VmError>,
> {
    match solo_state(program, seed, k) {
        Some(s) => match round_outcome(s, program) {
            Some((r, _)) => Some(r),
            None => None,
        },
        None => None,
    }
}

/// Some machine of the match fails one of the rounds before `k` when run on
/// its own.
pub open spec fn some_round_fails(pa: Seq<Opcode>, pb: Seq<Opcode>, seed: u64, k: nat) -> bool {
    exists|i: nat|
        i < k && (#[trigger] solo_result(pa, seed, i) matches Some(Err(_)) || solo_result(
            pb,
            seed,
            i,
        ) matches Some(Err(_)))
}

/// A match is each machine's own run of successive rounds from the seed:
/// it stops exactly when some round of either machine fails, and otherwise
/// round `i` records each machine's action in its `i`-th round and each
/// machine ends where its own run ends.
pub proof fn lemma_match_is_two_solo_runs(pa: Seq<Opcode>, pb: Seq<Opcode>, seed: u64, k: nat)
    requires
        !(match_state(pa, pb, seed, k) is Panics),
    ensures
        match_state(pa, pb, seed, k) is Stopped <==> some_round_fails(pa, pb, seed, k),
        match_state(pa, pb, seed, k) matches MatchState::Running { vm_a, vm_b, rounds, .. } ==> {
            &&& solo_state(pa, seed, k) == Some(vm_a)
            &&& solo_state(pb, seed, k) == Some(vm_b)
            &&& forall|i: int|
                0 <= i < k ==> solo_result(pa, seed, i as nat) == Some(
                    Ok::<Action, VmError>((#[trigger] rounds[i]).action_a),
                ) && solo_result(pb, seed, i as nat) == Some(Ok::<Action, VmError>(rounds[i].action_b))
        },
    decreases k,
{
    lemma_running_match(pa, pb, seed, k);
    if k == 0 {
        assert(!some_round_fails(pa, pb, seed, 0));
    } else {
        let kp = (k - 1) as nat;
        if match_state(pa, pb, seed, kp) is Panics {
            lemma_match_state_absorbing(pa, pb, seed, kp, k);
        }
        lemma_match_is_two_solo_runs(pa, pb, seed, kp);
        lemma_running_match(pa, pb, seed, kp);
        match match_state(pa, pb, seed, kp) {
            MatchState::Stopped(_) => {
                let i = choose|i: nat|
                    i < kp && (#[trigger] solo_result(pa, seed, i) matches Some(Err(_))
                        || solo_result(pb, seed, i) matches Some(Err(_)));
                assert(solo_result(pa, seed, i) == solo_result(pa, seed, i));
                assert(some_round_fails(pa, pb, seed, k));
            },
            MatchState::Running { vm_a, vm_b, rounds, .. } => {
                if match_state(pa, pb, seed, k) is Stopped {
                    assert(solo_result(pa, seed, kp) matches Some(Err(_)) || solo_result(
                        pb,
                        seed,
                        kp,
                    ) matches Some(Err(_)));
                    assert(some_round_fails(pa, pb, seed, k));
                } else {
                    if let MatchState::Running { rounds: r2, .. } = match_state(pa, pb, seed, k) {
                        assert(r2.drop_last() =~= rounds);
                        assert forall|i: int| 0 <= i < k implies solo_result(pa, seed, i as nat)
                            == Some(Ok::<Action, VmError>((#[trigger] r2[i]).action_a))
                            && solo_result(pb, seed, i as nat) == Some(
                            Ok::<Action, VmError>(r2[i].action_b),
                        ) by {
                            if i < kp {
                                assert(r2[i] == rounds[i]);
                            }
                        }
                        assert forall|i: nat| i < k implies !(#[trigger] solo_result(pa, seed, i) matches Some(Err(_))
                            || solo_result(pb, seed, i) matches Some(Err(_))) by {
                            assert(solo_result(pa, seed, i) == Some(Ok::<Action, VmError>(r2[i as int].action_a)));
                        }
                    }
                }
            },
            MatchState::Panics => {},
        }
    }
}

/// `r` is what a match that ended in state `st` returns.
pub open spec fn result_of_match(r: Result<MatchResult, VmError>, st: MatchState) -> bool {
    match (r, st) {
        (Ok(m), MatchState::Running { rounds, total_a, total_b, .. }) => {
            &&& m.rounds@ == rounds
            &&& m.total_a == total_a
            &&& m.total_b == total_b
        },
        (Err(e), MatchState::Stopped(e2)) => e == e2,
        _ => false,
    }
}

/// Matches are reproducible: two results of the same match (same programs,
/// rounds and seed) are equal.
pub proof fn lemma_match_reproducible(
    r1: Result<MatchResult, VmError>,
    r2: Result<MatchResult, VmError>,
    pa: Seq<Opcode>,
    pb: Seq<Opcode>,
    rounds: u32,
    seed: u64,
)
    requires
        result_of_match(r1, match_state(pa, pb, seed, rounds as nat)),
        result_of_match(r2, match_state(pa, pb, seed, rounds as nat)),
    ensures
        match (r1, r2) {
            (Ok(m1), Ok(m2)) => m1.rounds@ == m2.rounds@ && m1.total_a == m2.total_a
                && m1.total_b == m2.total_b,
            (Err(e1), Err(e2)) => e1 == e2,
            _ => false,
        },
{
}

/// Plays `rounds` rounds between two programs, both machines seeded with
/// `seed`, and scores them.
pub fn run_match(program_a: &[Opcode], program_b: &[Opcode], rounds: u32, seed: u64) -> (r:
    Result<MatchResult, VmError>)
    requires
        !(match_state(program_a@, program_b@, seed, rounds as nat) is Panics),
    ensures
        result_of_match(r, match_state(program_a@, program_b@, seed, rounds as nat)),
        r matches Ok(m) ==> {
            &&& m.rounds@.len() == rounds
            &&& m.total_a == sum_score_a(m.rounds@)
            &&& m.total_b == sum_score_b(m.rounds@)
            &&& rounds_scored(m.rounds@)
        },
{
    let ghost pa = program_a@;
    let ghost pb = program_b@;
    let mut vm_a = Vm::new(seed);
    let mut vm_b = Vm::new(seed);
    let mut total_a: i32 = 0;
    let mut total_b: i32 = 0;
    let mut round_results: Vec<RoundResult> = Vec::with_capacity(rounds as usize);
    let mut round: u32 = 0;

    while round < rounds
        invariant
            round <= rounds,
            pa == program_a@,
            pb == program_b@,
            !(match_state(pa, pb, seed, rounds as nat) is Panics),
            match_state(pa, pb, seed, round as nat) == (MatchState::Running {
                vm_a: vm_a@,
                vm_b: vm_b@,
                rounds: round_results@,
                total_a: total_a as int,
                total_b: total_b as int,
            }),
        decreases rounds - round,
    {
        let ghost next = (round + 1) as nat;
        proof {
            if !(match_state(pa, pb, seed, next) is Running) {
                lemma_match_state_absorbing(pa, pb, seed, next, rounds as nat);
            }
        }
        let action_a = match vm_a.run_round(program_a) {
            Ok(a) => a,
            Err(e) => {
                return Err(e);
            },
        };
        let action_b = match vm_b.run_round(program_b) {
            Ok(b) => b,
            Err(e) => {
                return Err(e);
            },
        };
        let (score_a, score_b) = payoff(action_a, action_b);
        total_a = total_a + score_a as i32;
        total_b = total_b + score_b as i32;
        round_results.push(RoundResult { action_a, action_b, score_a, score_b });
        round = round + 1;
    }
    proof {
        lemma_running_match(pa, pb, seed, rounds as nat);
    }
    Ok(MatchResult { rounds: round_results, total_a, total_b })
}

/// The payoff matrix is symmetric: swapping the players' actions swaps
/// their scores.
pub proof fn lemma_payoff_symmetric(a: Action, b: Action)
    ensures
        payoff_spec(a, b).0 == payoff_spec(b, a).1,
        payoff_spec(a, b).1 == payoff_spec(b, a).0,
{
}

/// The payoffs form a prisoner's dilemma: whatever the other player does,
/// defecting scores more than cooperating, yet mutual cooperation scores more
/// than mutual defection, and more than taking turns exploiting each other.
pub proof fn lemma_payoff_dilemma(b: Action)
    ensures
        payoff_spec(Action::Defect, b).0 > payoff_spec(Action::Cooperate, b).0,
        payoff_spec(Action::Cooperate, Action::Cooperate).0 > payoff_spec(
            Action::Defect,
            Action::Defect,
        ).0,
        2 * payoff_spec(Action::Cooperate, Action::Cooperate).0 > payoff_spec(
            Action::Defect,
            Action::Cooperate,
        ).0 + payoff_spec(Action::Cooperate, Action::Defect).0,
{
}

/// A strategy played against itself: both machines stay identical, so both
/// sides play alike in every round and end with equal totals.
pub proof fn lemma_self_play_even(p: Seq<Opcode>, seed: u64, k: nat)
    ensures
        match_state(p, p, seed, k) matches MatchState::Running {
            vm_a,
            vm_b,
            rounds,
            total_a,
            total_b,
        } ==> {
            &&& vm_a == vm_b
            &&& total_a == total_b
            &&& forall|i: int|
                0 <= i < rounds.len() ==> (#[trigger] rounds[i]).action_a == rounds[i].action_b
        },
    decreases k,
{
    if k > 0 {
        lemma_self_play_even(p, seed, (k - 1) as nat);
    }
}

/// A round record seen from the other seat.
pub open spec fn swap_round(r: RoundResult) -> RoundResult {
    RoundResult {
        action_a: r.action_b,
        action_b: r.action_a,
        score_a: r.score_b,
        score_b: r.score_a,
    }
}

/// Two match states that are the same match seen from opposite seats.
pub open spec fn mirrored(m1: MatchState, m2: MatchState) -> bool {
    match (m1, m2) {
        (
            MatchState::Running { vm_a, vm_b, rounds, total_a, total_b },
            MatchState::Running {
                vm_a: vm_a2,
                vm_b: vm_b2,
                rounds: rounds2,
                total_a: total_a2,
                total_b: total_b2,
            },
        ) => {
            &&& vm_a == vm_b2
            &&& vm_b == vm_a2
            &&& total_a == total_b2
            &&& total_b == total_a2
            &&& rounds2 == rounds.map_values(|r: RoundResult| swap_round(r))
        },
        (MatchState::Stopped(e1), MatchState::Stopped(e2)) => e1 == e2,
        _ => false,
    }
}

/// The seat does not matter: swapping the two programs swaps the actions
/// and scores of every round and the two totals, and a match that stops
/// stops either way (where neither order would panic).
pub proof fn lemma_seats_swap(pa: Seq<Opcode>, pb: Seq<Opcode>, seed: u64, k: nat)
    requires
        !(match_state(pa, pb, seed, k) is Panics),
        !(match_state(pb, pa, seed, k) is Panics),
    ensures
        mirrored(match_state(pa, pb, seed, k), match_state(pb, pa, seed, k)),
    decreases k,
{
    if k == 0 {
        assert(seq![].map_values(|r: RoundResult| swap_round(r)) =~= Seq::<RoundResult>::empty());
    } else {
        let prev = (k - 1) as nat;
        if match_state(pa, pb, seed, prev) is Panics {
            lemma_match_state_absorbing(pa, pb, seed, prev, k);
        }
        if match_state(pb, pa, seed, prev) is Panics {
            lemma_match_state_absorbing(pb, pa, seed, prev, k);
        }
        lemma_seats_swap(pa, pb, seed, prev);
        if let MatchState::Running { vm_a, vm_b, rounds, .. } = match_state(pa, pb, seed, prev) {
            if let (
                MatchState::Running { rounds: r1, .. },
                MatchState::Running { rounds: r2, .. },
            ) = (match_state(pa, pb, seed, k), match_state(pb, pa, seed, k)) {
                let x = round_outcome(vm_a, pa).unwrap().0.unwrap();
                let y = round_outcome(vm_b, pb).unwrap().0.unwrap();
                lemma_payoff_symmetric(x, y);
                assert(r2 =~= r1.map_values(|r: RoundResult| swap_round(r)));
            }
        }
    }
}

} // verus!
