//! Round-robin tournaments: every strategy meets every other once.
use vstd::prelude::*;
use crate::match_runner::{
    MatchState, lemma_running_match, lemma_valid_match_never_panics, match_state, run_match,
};
use crate::vm::{Opcode, VmError, program_registers_valid};

verus! {

/// The final scores, best first.
pub struct TournamentResult {
    pub standings: Vec<(String, i32)>,
}

/// The multiplier that spreads the per-match seeds.
pub const SEED_MULTIPLIER: u64 = 0x9e3779b97f4a7c15;

/// The seed of the match between strategies `i` and `j` of `n`.
pub open spec fn match_seed(seed: u64, n: nat, i: nat, j: nat) -> u64 {
    vstd::wrapping::u64_specs::wrapping_mul(
        vstd::wrapping::u64_specs::wrapping_add(seed, (i * n + j) as u64),
        SEED_MULTIPLIER,
    )
}

/// The programs of the strategies.
pub open spec fn programs_of(strategies: Seq<(String, Vec<Opcode>)>) -> Seq<Seq<Opcode>> {
    strategies.map_values(|s: (String, Vec<Opcode>)| s.1@)
}

/// The state of a tournament after some of its matches.
pub enum TourState {
    /// The running total of every strategy.
    Running(Seq<int>),
    /// A match stopped with this error; the tournament ends with it.
    Stopped(VmError),
    /// A match would panic, a total would leave the range of `i32`, or a
    /// match's index `i * n + j` would leave the range of `usize`.
    Panics,
}

/// Playing the match between strategies `i` and `j` (`i < j`): strategy `i`
/// takes seat A, and each side's total is added to its running total.
pub open spec fn play_pair(
    st: TourState,
    progs: Seq<Seq<Opcode>>,
    rounds: u32,
    seed: u64,
    i: nat,
    j: nat,
) -> TourState {
    match st {
        TourState::Running(t) => {
            let n = progs.len();
            if i * n + j > usize::MAX {
                TourState::Panics
            } else {
                match match_state(progs[i as int], progs[j as int], match_seed(seed, n, i, j), rounds as nat) {
                    MatchState::Running { total_a, total_b, .. } => {
                        let ti = t[i as int] + total_a;
                        let tj = t[j as int] + total_b;
                        if ti > i32::MAX || tj > i32::MAX {
                            TourState::Panics
                        } else {
                            TourState::Running(t.update(i as int, ti).update(j as int, tj))
                        }
                    },
                    MatchState::Stopped(e) => TourState::Stopped(e),
                    MatchState::Panics => TourState::Panics,
                }
            }
        },
        other => other,
    }
}

/// The state before strategy `i` meets its higher-numbered opponents: all
/// matches of strategies before `i` are played, in order.
pub open spec fn state_before_row(progs: Seq<Seq<Opcode>>, rounds: u32, seed: u64, i: nat) -> TourState
    decreases i, progs.len() + 1,
{
    if i == 0 {
        TourState::Running(Seq::new(progs.len(), |k: int| 0int))
    } else {
        state_in_row(progs, rounds, seed, (i - 1) as nat, progs.len())
    }
}

/// The state once strategy `i` has met the opponents `i + 1 .. j`.
pub open spec fn state_in_row(
    progs: Seq<Seq<Opcode>>,
    rounds: u32,
    seed: u64,
    i: nat,
    j: nat,
) -> TourState
    decreases i + 1, j,
{
    if j <= i + 1 {
        state_before_row(progs, rounds, seed, i)
    } else {
        play_pair(
            state_in_row(progs, rounds, seed, i, (j - 1) as nat),
            progs,
            rounds,
            seed,
            i,
            (j - 1) as nat,
        )
    }
}

/// The state once every pair has met.
pub open spec fn tournament_state(progs: Seq<Seq<Opcode>>, rounds: u32, seed: u64) -> TourState {
    state_before_row(progs, rounds, seed, progs.len())
}

/// Totals as integers.
pub open spec fn widen(t: Seq<i32>) -> Seq<int> {
    t.map_values(|v: i32| v as int)
}

/// The match between strategies `i` and `j`, played in full.
pub open spec fn pair_match(progs: Seq<Seq<Opcode>>, rounds: u32, seed: u64, i: nat, j: nat) -> MatchState {
    match_state(
        progs[i as int],
        progs[j as int],
        match_seed(seed, progs.len(), i, j),
        rounds as nat,
    )
}

/// What strategy `i` (seat A) scores against strategy `j`.
pub open spec fn seat_a_total(progs: Seq<Seq<Opcode>>, rounds: u32, seed: u64, i: nat, j: nat) -> int {
    match pair_match(progs, rounds, seed, i, j) {
        MatchState::Running { total_a, .. } => total_a,
        _ => 0,
    }
}

/// What strategy `j` (seat B) scores against strategy `i`.
pub open spec fn seat_b_total(progs: Seq<Seq<Opcode>>, rounds: u32, seed: u64, i: nat, j: nat) -> int {
    match pair_match(progs, rounds, seed, i, j) {
        MatchState::Running { total_b, .. } => total_b,
        _ => 0,
    }
}

/// What strategy `k` scores against the opponents `k + 1 .. j` (it sits in
/// seat A against each).
pub open spec fn sum_against_later(progs: Seq<Seq<Opcode>>, rounds: u32, seed: u64, k: nat, j: nat) -> int
    decreases j,
{
    if j <= k + 1 {
        0
    } else {
        sum_against_later(progs, rounds, seed, k, (j - 1) as nat) + seat_a_total(
            progs,
            rounds,
            seed,
            k,
            (j - 1) as nat,
        )
    }
}

/// What strategy `k` scores against the opponents before both `i` and `k`
/// (it sits in seat B against each).
pub open spec fn sum_against_earlier(progs: Seq<Seq<Opcode>>, rounds: u32, seed: u64, k: nat, i: nat) -> int
    decreases i,
{
    if i == 0 {
        0
    } else {
        sum_against_earlier(progs, rounds, seed, k, (i - 1) as nat) + if i - 1 < k {
            seat_b_total(progs, rounds, seed, (i - 1) as nat, k)
        } else {
            0
        }
    }
}

/// Strategy `k`'s tournament score: the sum of what it scores in each of its
/// matches.
pub open spec fn strategy_score(progs: Seq<Seq<Opcode>>, rounds: u32, seed: u64, k: nat) -> int {
    sum_against_later(progs, rounds, seed, k, progs.len()) + sum_against_earlier(
        progs,
        rounds,
        seed,
        k,
        k,
    )
}

/// What the running totals hold before row `i`.
pub open spec fn totals_before_row(progs: Seq<Seq<Opcode>>, rounds: u32, seed: u64, i: nat, t: Seq<int>) -> bool {
    &&& t.len() == progs.len()
    &&& forall|k: int|
        0 <= k < progs.len() ==> #[trigger] t[k] == if k < i {
            strategy_score(progs, rounds, seed, k as nat)
        } else {
            sum_against_earlier(progs, rounds, seed, k as nat, i)
        }
}

/// What the running totals hold once strategy `i` has met `i + 1 .. j`.
pub open spec fn totals_in_row(progs: Seq<Seq<Opcode>>, rounds: u32, seed: u64, i: nat, j: nat, t: Seq<int>) -> bool {
    &&& t.len() == progs.len()
    &&& forall|k: int|
        0 <= k < progs.len() ==> #[trigger] t[k] == if k < i {
            strategy_score(progs, rounds, seed, k as nat)
        } else if k == i {
            sum_against_later(progs, rounds, seed, i, j) + sum_against_earlier(
                progs,
                rounds,
                seed,
                i,
                i,
            )
        } else if k < j {
            sum_against_earlier(progs, rounds, seed, k as nat, i + 1)
        } else {
            sum_against_earlier(progs, rounds, seed, k as nat, i)
        }
}

proof fn lemma_totals_before_row(progs: Seq<Seq<Opcode>>, rounds: u32, seed: u64, i: nat)
    requires
        i <= progs.len(),
    ensures
        state_before_row(progs, rounds, seed, i) matches TourState::Running(t) ==> totals_before_row(
            progs,
            rounds,
            seed,
            i,
            t,
        ),
    decreases i, progs.len() + 1,
{
    if i > 0 {
        lemma_totals_in_row(progs, rounds, seed, (i - 1) as nat, progs.len());
        if let TourState::Running(t) = state_before_row(progs, rounds, seed, i) {
            assert forall|k: int| 0 <= k < progs.len() implies #[trigger] t[k] == if k < i {
                strategy_score(progs, rounds, seed, k as nat)
            } else {
                sum_against_earlier(progs, rounds, seed, k as nat, i)
            } by {
                if k >= i {
                    assert(sum_against_earlier(progs, rounds, seed, k as nat, i) == sum_against_earlier(
                        progs,
                        rounds,
                        seed,
                        k as nat,
                        (i - 1) as nat,
                    ) + seat_b_total(progs, rounds, seed, (i - 1) as nat, k as nat));
                }
            }
        }
    } else {
        if let TourState::Running(t) = state_before_row(progs, rounds, seed, i) {
            assert forall|k: int| 0 <= k < progs.len() implies #[trigger] t[k]
                == sum_against_earlier(progs, rounds, seed, k as nat, 0) by {}
        }
    }
}

proof fn lemma_totals_in_row(progs: Seq<Seq<Opcode>>, rounds: u32, seed: u64, i: nat, j: nat)
    requires
        i < progs.len(),
        j <= progs.len(),
    ensures
        j >= i + 1 ==> (state_in_row(progs, rounds, seed, i, j) matches TourState::Running(t)
            ==> totals_in_row(progs, rounds, seed, i, j, t)),
    decreases i + 1, j,
{
    if j <= i + 1 {
        lemma_totals_before_row(progs, rounds, seed, i);
        if j == i + 1 {
            if let TourState::Running(t) = state_in_row(progs, rounds, seed, i, j) {
                assert forall|k: int| 0 <= k < progs.len() implies #[trigger] t[k] == if k < i {
                    strategy_score(progs, rounds, seed, k as nat)
                } else if k == i {
                    sum_against_later(progs, rounds, seed, i, j) + sum_against_earlier(
                        progs,
                        rounds,
                        seed,
                        i,
                        i,
                    )
                } else if k < j {
                    sum_against_earlier(progs, rounds, seed, k as nat, i + 1)
                } else {
                    sum_against_earlier(progs, rounds, seed, k as nat, i)
                } by {}
            }
        }
    } else {
        let jp = (j - 1) as nat;
        lemma_totals_in_row(progs, rounds, seed, i, jp);
        if let TourState::Running(t) = state_in_row(progs, rounds, seed, i, j) {
            if let TourState::Running(tp) = state_in_row(progs, rounds, seed, i, jp) {
                assert forall|k: int| 0 <= k < progs.len() implies #[trigger] t[k] == if k < i {
                    strategy_score(progs, rounds, seed, k as nat)
                } else if k == i {
                    sum_against_later(progs, rounds, seed, i, j) + sum_against_earlier(
                        progs,
                        rounds,
                        seed,
                        i,
                        i,
                    )
                } else if k < j {
                    sum_against_earlier(progs, rounds, seed, k as nat, i + 1)
                } else {
                    sum_against_earlier(progs, rounds, seed, k as nat, i)
                } by {
                    if k == jp {
                        assert(sum_against_earlier(progs, rounds, seed, k as nat, i + 1)
                            == sum_against_earlier(progs, rounds, seed, k as nat, i)
                            + seat_b_total(progs, rounds, seed, i, k as nat));
                    } else if k > i {
                        assert(t[k] == tp[k]);
                    }
                }
            }
        }
    }
}

/// Each strategy's tournament score is the sum of what it scored in its
/// matches: against every later strategy in seat A, against every earlier
/// one in seat B.
pub proof fn lemma_scores_are_match_sums(progs: Seq<Seq<Opcode>>, rounds: u32, seed: u64)
    ensures
        tournament_state(progs, rounds, seed) matches TourState::Running(t) ==> {
            &&& t.len() == progs.len()
            &&& forall|k: int|
                0 <= k < progs.len() ==> #[trigger] t[k] == strategy_score(progs, rounds, seed, k as nat)
        },
{
    lemma_totals_before_row(progs, rounds, seed, progs.len());
}

/// Every strategy's instructions name only valid registers.
pub open spec fn all_registers_valid(progs: Seq<Seq<Opcode>>) -> bool {
    forall|k: int| 0 <= k < progs.len() ==> program_registers_valid(#[trigger] progs[k])
}

/// A match between valid programs scores each seat between 0 and
/// `5 * rounds`.
proof fn lemma_seat_totals_bounded(progs: Seq<Seq<Opcode>>, rounds: u32, seed: u64, i: nat, j: nat)
    requires
        all_registers_valid(progs),
        i < progs.len(),
        j < progs.len(),
        5 * rounds <= i32::MAX,
    ensures
        0 <= seat_a_total(progs, rounds, seed, i, j) <= 5 * rounds,
        0 <= seat_b_total(progs, rounds, seed, i, j) <= 5 * rounds,
        !(pair_match(progs, rounds, seed, i, j) is Panics),
{
    assert(program_registers_valid(progs[i as int]));
    assert(program_registers_valid(progs[j as int]));
    lemma_valid_match_never_panics(
        progs[i as int],
        progs[j as int],
        match_seed(seed, progs.len(), i, j),
        rounds as nat,
    );
}

proof fn lemma_later_bounded(progs: Seq<Seq<Opcode>>, rounds: u32, seed: u64, k: nat, j: nat)
    requires
        all_registers_valid(progs),
        k < progs.len(),
        k + 1 <= j <= progs.len(),
        5 * rounds <= i32::MAX,
    ensures
        0 <= sum_against_later(progs, rounds, seed, k, j) <= 5 * rounds * (j - k - 1),
    decreases j,
{
    if j > k + 1 {
        let jp = (j - 1) as nat;
        lemma_later_bounded(progs, rounds, seed, k, jp);
        lemma_seat_totals_bounded(progs, rounds, seed, k, jp);
        let m = 5 * rounds;
        assert(m * (j - k - 1) == m * (jp - k - 1) + m) by (nonlinear_arith)
            requires
                jp == j - 1,
        ;
    }
}

proof fn lemma_earlier_bounded(progs: Seq<Seq<Opcode>>, rounds: u32, seed: u64, k: nat, i: nat)
    requires
        all_registers_valid(progs),
        k < progs.len(),
        i <= k,
        5 * rounds <= i32::MAX,
    ensures
        0 <= sum_against_earlier(progs, rounds, seed, k, i) <= 5 * rounds * i,
    decreases i,
{
    if i > 0 {
        let ip = (i - 1) as nat;
        lemma_earlier_bounded(progs, rounds, seed, k, ip);
        lemma_seat_totals_bounded(progs, rounds, seed, ip, k);
        let m = 5 * rounds;
        assert(m * i == m * ip + m) by (nonlinear_arith)
            requires
                ip == i - 1,
        ;
    }
}

/// The tournament preconditions that a caller can check directly.
pub open spec fn tournament_fits(progs: Seq<Seq<Opcode>>, rounds: u32) -> bool {
    &&& all_registers_valid(progs)
    &&& progs.len() * progs.len() <= usize::MAX
    &&& progs.len() >= 1 ==> 5 * rounds * (progs.len() - 1) <= i32::MAX
}

proof fn lemma_fits_bounds(progs: Seq<Seq<Opcode>>, rounds: u32, i: nat, j: nat)
    requires
        tournament_fits(progs, rounds),
        i < j < progs.len(),
    ensures
        i * progs.len() + j <= usize::MAX,
        5 * rounds <= i32::MAX,
        5 * rounds * j <= i32::MAX,
        5 * rounds * (i + 1) <= 5 * rounds * j,
{
    let n = progs.len();
    let m = 5 * rounds;
    assert(i * n + j <= n * n) by (nonlinear_arith)
        requires
            i < j < n,
    ;
    assert(m <= m * (n - 1) && m * j <= m * (n - 1) && m * (i + 1) <= m * j) by (nonlinear_arith)
        requires
            i < j < n,
            m >= 0,
    ;
}

proof fn lemma_fits_before_row(progs: Seq<Seq<Opcode>>, rounds: u32, seed: u64, i: nat)
    requires
        tournament_fits(progs, rounds),
        i <= progs.len(),
    ensures
        !(state_before_row(progs, rounds, seed, i) is Panics),
    decreases i, progs.len() + 1,
{
    if i > 0 {
        lemma_fits_in_row(progs, rounds, seed, (i - 1) as nat, progs.len());
    }
}

proof fn lemma_fits_in_row(progs: Seq<Seq<Opcode>>, rounds: u32, seed: u64, i: nat, j: nat)
    requires
        tournament_fits(progs, rounds),
        i < progs.len(),
        j <= progs.len(),
    ensures
        !(state_in_row(progs, rounds, seed, i, j) is Panics),
    decreases i + 1, j,
{
    if j <= i + 1 {
        lemma_fits_before_row(progs, rounds, seed, i);
    } else {
        let jp = (j - 1) as nat;
        lemma_fits_in_row(progs, rounds, seed, i, jp);
        lemma_totals_in_row(progs, rounds, seed, i, jp);
        if let TourState::Running(t) = state_in_row(progs, rounds, seed, i, jp) {
            lemma_fits_bounds(progs, rounds, i, jp);
            lemma_seat_totals_bounded(progs, rounds, seed, i, jp);
            lemma_later_bounded(progs, rounds, seed, i, jp);
            lemma_earlier_bounded(progs, rounds, seed, i, i);
            lemma_earlier_bounded(progs, rounds, seed, jp, i);
            let m = 5 * rounds;
            assert(m * (jp - i - 1) + m * i + m == m * jp) by (nonlinear_arith)
                requires
                    i < jp,
            ;
            assert(t[i as int] == sum_against_later(progs, rounds, seed, i, jp)
                + sum_against_earlier(progs, rounds, seed, i, i));
            assert(t[jp as int] == sum_against_earlier(progs, rounds, seed, jp, i));
        }
    }
}

/// Valid programs, `n * n` within `usize` and `5 * rounds * (n - 1)` within
/// `i32` (the most a strategy can score) are enough for a tournament never
/// to panic.
pub proof fn lemma_tournament_fits(progs: Seq<Seq<Opcode>>, rounds: u32, seed: u64)
    requires
        tournament_fits(progs, rounds),
    ensures
        !(tournament_state(progs, rounds, seed) is Panics),
{
    lemma_fits_before_row(progs, rounds, seed, progs.len());
}

/// A standing as plain values: the name and the score.
pub open spec fn standing_view(s: Seq<(String, i32)>) -> Seq<(Seq<char>, int)> {
    s.map_values(|e: (String, i32)| (e.0@, e.1 as int))
}

/// Each strategy's name with its score, in the strategies' order.
pub open spec fn entries(strategies: Seq<(String, Vec<Opcode>)>, totals: Seq<int>) -> Seq<
    (Seq<char>, int),
> {
    Seq::new(strategies.len(), |k: int| (strategies[k].0@, totals[k]))
}

/// `perm` is a one-to-one map from positions of `output` to positions of
/// `input`, and `output[k] == input[perm[k]]`.
pub open spec fn is_permutation_by<T>(input: Seq<T>, output: Seq<T>, perm: Seq<int>) -> bool {
    &&& perm.len() == input.len()
    &&& output.len() == input.len()
    &&& forall|k: int| 0 <= k < perm.len() ==> 0 <= #[trigger] perm[k] < input.len()
    &&& forall|k: int, l: int|
        0 <= k < perm.len() && 0 <= l < perm.len() && k != l ==> #[trigger] perm[k]
            != #[trigger] perm[l]
    &&& forall|k: int| 0 <= k < output.len() ==> #[trigger] output[k] == input[perm[k]]
}

/// `output` is `input` ordered by score, highest first, with ties kept in
/// their input order (a stable sort, described by `perm`).
pub open spec fn is_stable_descending_by(
    input: Seq<(Seq<char>, int)>,
    output: Seq<(Seq<char>, int)>,
    perm: Seq<int>,
) -> bool {
    &&& is_permutation_by(input, output, perm)
    &&& forall|k: int, l: int|
        0 <= k < l < output.len() ==> (#[trigger] output[k]).1 >= (#[trigger] output[l]).1
    &&& forall|k: int, l: int|
        0 <= k < l < output.len() && (#[trigger] output[k]).1 == (#[trigger] output[l]).1
            ==> perm[k] < perm[l]
}

/// `output` is `input` stably sorted by score, highest first.
pub open spec fn is_ranking_of(input: Seq<(Seq<char>, int)>, output: Seq<(Seq<char>, int)>) -> bool {
    exists|perm: Seq<int>| #[trigger] is_stable_descending_by(input, output, perm)
}

/// Entry `x` ranks before entry `y`: a higher score, or an equal score and
/// an earlier position.
pub open spec fn ranks_before(input: Seq<(Seq<char>, int)>, x: int, y: int) -> bool {
    input[x].1 > input[y].1 || (input[x].1 == input[y].1 && x < y)
}

/// A sequence of positions listed in ranking order.
pub open spec fn in_ranking_order(input: Seq<(Seq<char>, int)>, s: Seq<int>) -> bool {
    forall|k: int, l: int|
        0 <= k < l < s.len() ==> ranks_before(input, #[trigger] s[k], #[trigger] s[l])
}

proof fn lemma_sorted_is_ranking_order(
    input: Seq<(Seq<char>, int)>,
    output: Seq<(Seq<char>, int)>,
    perm: Seq<int>,
)
    requires
        is_stable_descending_by(input, output, perm),
    ensures
        in_ranking_order(input, perm),
        perm.to_set() =~= vstd::set_lib::set_int_range(0, input.len() as int),
{
    assert forall|k: int, l: int| 0 <= k < l < perm.len() implies ranks_before(
        input,
        #[trigger] perm[k],
        #[trigger] perm[l],
    ) by {
        assert(output[k] == input[perm[k]]);
        assert(output[l] == input[perm[l]]);
    }
    let n = input.len() as int;
    assert(perm.no_duplicates()) by {
        assert forall|a: int, b: int| 0 <= a < perm.len() && 0 <= b < perm.len() && a != b implies perm[a] != perm[b] by {
            assert(perm[a] != perm[b]);
        }
    }
    perm.unique_seq_to_set();
    vstd::set_lib::lemma_int_range(0, n);
    assert forall|x: int| perm.to_set().contains(x) implies vstd::set_lib::set_int_range(0, n).contains(x) by {
        let k = choose|k: int| 0 <= k < perm.len() && perm[k] == x;
        assert(0 <= perm[k] < n);
    }
    vstd::set_lib::lemma_subset_equality(perm.to_set(), vstd::set_lib::set_int_range(0, n));
}

proof fn lemma_ranking_order_unique(input: Seq<(Seq<char>, int)>, s1: Seq<int>, s2: Seq<int>)
    requires
        in_ranking_order(input, s1),
        in_ranking_order(input, s2),
        s1.len() == s2.len(),
        s1.to_set() == s2.to_set(),
    ensures
        s1 == s2,
    decreases s1.len(),
{
    if s1.len() > 0 {
        assert(s1.to_set().contains(s1[0]));
        let j = choose|j: int| 0 <= j < s2.len() && s2[j] == s1[0];
        assert(s2.to_set().contains(s2[0]));
        let i = choose|i: int| 0 <= i < s1.len() && s1[i] == s2[0];
        if j > 0 {
            assert(ranks_before(input, s2[0], s2[j]));
            if i == 0 {
                assert(false);
            } else {
                assert(ranks_before(input, s1[0], s1[i]));
                assert(false);
            }
        }
        let t1 = s1.drop_first();
        let t2 = s2.drop_first();
        assert forall|x: int| t1.to_set().contains(x) <==> t2.to_set().contains(x) by {
            if t1.to_set().contains(x) {
                let a = choose|a: int| 0 <= a < t1.len() && t1[a] == x;
                assert(s1[a + 1] == x);
                assert(s1.to_set().contains(x));
                let b = choose|b: int| 0 <= b < s2.len() && s2[b] == x;
                if b == 0 {
                    assert(ranks_before(input, s1[0], s1[a + 1]));
                    assert(false);
                }
                assert(t2[b - 1] == x);
            }
            if t2.to_set().contains(x) {
                let a = choose|a: int| 0 <= a < t2.len() && t2[a] == x;
                assert(s2[a + 1] == x);
                assert(s2.to_set().contains(x));
                let b = choose|b: int| 0 <= b < s1.len() && s1[b] == x;
                if b == 0 {
                    assert(ranks_before(input, s2[0], s2[a + 1]));
                    assert(false);
                }
                assert(t1[b - 1] == x);
            }
        }
        assert(t1.to_set() =~= t2.to_set());
        assert(in_ranking_order(input, t1)) by {
            assert forall|k: int, l: int| 0 <= k < l < t1.len() implies ranks_before(
                input,
                #[trigger] t1[k],
                #[trigger] t1[l],
            ) by {
                assert(t1[k] == s1[k + 1] && t1[l] == s1[l + 1]);
            }
        }
        assert(in_ranking_order(input, t2)) by {
            assert forall|k: int, l: int| 0 <= k < l < t2.len() implies ranks_before(
                input,
                #[trigger] t2[k],
                #[trigger] t2[l],
            ) by {
                assert(t2[k] == s2[k + 1] && t2[l] == s2[l + 1]);
            }
        }
        lemma_ranking_order_unique(input, t1, t2);
        assert(s1 =~= s2) by {
            assert forall|k: int| 0 <= k < s1.len() implies s1[k] == s2[k] by {
                if k > 0 {
                    assert(s1[k] == t1[k - 1]);
                    assert(s2[k] == t2[k - 1]);
                }
            }
        }
    }
}

/// The ranking is unique: two standings that both rank the same entries
/// (highest score first, ties in their original order) are equal.
pub proof fn lemma_ranking_unique(
    input: Seq<(Seq<char>, int)>,
    out1: Seq<(Seq<char>, int)>,
    out2: Seq<(Seq<char>, int)>,
)
    requires
        is_ranking_of(input, out1),
        is_ranking_of(input, out2),
    ensures
        out1 == out2,
{
    let p1 = choose|perm: Seq<int>| is_stable_descending_by(input, out1, perm);
    let p2 = choose|perm: Seq<int>| is_stable_descending_by(input, out2, perm);
    lemma_sorted_is_ranking_order(input, out1, p1);
    lemma_sorted_is_ranking_order(input, out2, p2);
    lemma_ranking_order_unique(input, p1, p2);
    assert(out1 =~= out2) by {
        assert forall|k: int| 0 <= k < out1.len() implies out1[k] == out2[k] by {
            assert(out1[k] == input[p1[k]]);
            assert(out2[k] == input[p2[k]]);
        }
    }
}

/// Inserting the next input element after every element that scores at least
/// as much keeps the output a stable descending sort of the input read so far.
proof fn lemma_insert_stable(
    input: Seq<(Seq<char>, int)>,
    out: Seq<(Seq<char>, int)>,
    perm: Seq<int>,
    k: int,
    p: int,
)
    requires
        0 <= k < input.len(),
        is_stable_descending_by(input.take(k), out, perm),
        0 <= p <= out.len(),
        forall|q: int| 0 <= q < p ==> (#[trigger] out[q]).1 >= input[k].1,
        forall|q: int| p <= q < out.len() ==> (#[trigger] out[q]).1 < input[k].1,
    ensures
        is_stable_descending_by(input.take(k + 1), out.insert(p, input[k]), perm.insert(p, k)),
{
    let inp = input.take(k + 1);
    let o2 = out.insert(p, input[k]);
    let p2 = perm.insert(p, k);
    assert(forall|q: int| 0 <= q < k ==> #[trigger] inp[q] == input.take(k)[q]);
    assert forall|q: int| 0 <= q < o2.len() implies #[trigger] o2[q] == inp[p2[q]] by {
        if q < p {
            assert(o2[q] == out[q]);
            assert(p2[q] == perm[q]);
        } else if q > p {
            assert(o2[q] == out[q - 1]);
            assert(p2[q] == perm[q - 1]);
        }
    }
    assert forall|a: int, b: int|
        0 <= a < p2.len() && 0 <= b < p2.len() && a != b implies #[trigger] p2[a]
        != #[trigger] p2[b] by {
        if a != p && b != p {
            let a1 = if a < p { a } else { a - 1 };
            let b1 = if b < p { b } else { b - 1 };
            assert(p2[a] == perm[a1]);
            assert(p2[b] == perm[b1]);
        } else if a == p {
            let b1 = if b < p { b } else { b - 1 };
            assert(p2[b] == perm[b1]);
        } else {
            let a1 = if a < p { a } else { a - 1 };
            assert(p2[a] == perm[a1]);
        }
    }
    assert forall|q: int| 0 <= q < p2.len() implies 0 <= #[trigger] p2[q] < inp.len() by {
        if q < p {
            assert(p2[q] == perm[q]);
        } else if q > p {
            assert(p2[q] == perm[q - 1]);
        }
    }
    assert forall|a: int, b: int| 0 <= a < b < o2.len() implies (#[trigger] o2[a]).1 >= (
    #[trigger] o2[b]).1 by {
        let a1 = if a < p { a } else { a - 1 };
        let b1 = if b < p { b } else { b - 1 };
        if a != p && b != p {
            assert(o2[a] == out[a1]);
            assert(o2[b] == out[b1]);
        } else if a == p {
            assert(o2[b] == out[b1]);
        } else {
            assert(o2[a] == out[a1]);
        }
    }
    assert forall|a: int, b: int|
        0 <= a < b < o2.len() && (#[trigger] o2[a]).1 == (#[trigger] o2[b]).1 implies p2[a]
        < p2[b] by {
        let a1 = if a < p { a } else { a - 1 };
        let b1 = if b < p { b } else { b - 1 };
        if a != p && b != p {
            assert(o2[a] == out[a1]);
            assert(o2[b] == out[b1]);
            assert(p2[a] == perm[a1]);
            assert(p2[b] == perm[b1]);
        } else if a == p {
            assert(o2[b] == out[b1]);
        } else {
            assert(o2[a] == out[a1]);
            assert(p2[a] == perm[a1]);
        }
    }
}

/// The strategies' names with their totals, ordered by total, highest first;
/// strategies with equal totals keep their order.
fn rank(strategies: &[(String, Vec<Opcode>)], totals: &Vec<i32>) -> (standings: Vec<(String, i32)>)
    requires
        totals@.len() == strategies@.len(),
    ensures
        is_ranking_of(entries(strategies@, widen(totals@)), standing_view(standings@)),
{
    let n = strategies.len();
    let ghost input = entries(strategies@, widen(totals@));
    let mut out: Vec<(String, i32)> = Vec::new();
    let ghost mut perm: Seq<int> = Seq::empty();
    let mut k: usize = 0;
    while k < n
        invariant
            k <= n,
            n == strategies@.len(),
            totals@.len() == n,
            input == entries(strategies@, widen(totals@)),
            is_stable_descending_by(input.take(k as int), standing_view(out@), perm),
        decreases n - k,
    {
        let score = totals[k];
        let ghost view = standing_view(out@);
        let mut p: usize = 0;
        while p < out.len() && out[p].1 >= score
            invariant
                p <= out@.len(),
                view == standing_view(out@),
                forall|q: int| 0 <= q < p ==> (#[trigger] view[q]).1 >= score,
            decreases out@.len() - p,
        {
            p = p + 1;
        }
        proof {
            assert forall|q: int| p <= q < view.len() implies (#[trigger] view[q]).1 < score by {
                if q > p {
                    assert(view[p as int].1 >= view[q].1);
                }
            }
            assert(input[k as int] == (strategies@[k as int].0@, score as int));
            lemma_insert_stable(input, view, perm, k as int, p as int);
        }
        let name = strategies[k].0.clone();
        out.insert(p, (name, score));
        proof {
            perm = perm.insert(p as int, k as int);
            assert(standing_view(out@) =~= view.insert(p as int, input[k as int]));
        }
        k = k + 1;
    }
    proof {
        assert(input.take(n as int) =~= input);
    }
    out
}

/// Within a row, once the tournament has stopped (or would panic), later
/// matches change nothing.
proof fn lemma_row_absorbing(progs: Seq<Seq<Opcode>>, rounds: u32, seed: u64, i: nat, j: nat, j2: nat)
    requires
        i + 1 <= j <= j2,
        !(state_in_row(progs, rounds, seed, i, j) is Running),
    ensures
        state_in_row(progs, rounds, seed, i, j2) == state_in_row(progs, rounds, seed, i, j),
    decreases j2,
{
    if j2 > j {
        lemma_row_absorbing(progs, rounds, seed, i, j, (j2 - 1) as nat);
    }
}

/// Across rows, once the tournament has stopped (or would panic), later
/// matches change nothing.
proof fn lemma_rows_absorbing(progs: Seq<Seq<Opcode>>, rounds: u32, seed: u64, i: nat, i2: nat)
    requires
        i <= i2 <= progs.len(),
        !(state_before_row(progs, rounds, seed, i) is Running),
    ensures
        state_before_row(progs, rounds, seed, i2) == state_before_row(progs, rounds, seed, i),
    decreases i2,
{
    if i2 > i {
        lemma_rows_absorbing(progs, rounds, seed, i, (i2 - 1) as nat);
        lemma_row_absorbing(progs, rounds, seed, (i2 - 1) as nat, i2, progs.len());
    }
}

/// A state of the tournament that is no longer running is its final state.
proof fn lemma_tournament_absorbing(progs: Seq<Seq<Opcode>>, rounds: u32, seed: u64, i: nat, j: nat)
    requires
        i < progs.len(),
        i + 1 <= j <= progs.len(),
        !(state_in_row(progs, rounds, seed, i, j) is Running),
    ensures
        tournament_state(progs, rounds, seed) == state_in_row(progs, rounds, seed, i, j),
{
    lemma_row_absorbing(progs, rounds, seed, i, j, progs.len());
    lemma_rows_absorbing(progs, rounds, seed, i + 1, progs.len());
}

/// `r` is what the tournament of `strategies` returns: the ranking by the
/// strategies' scores (each the sum of what it scored in its matches), or
/// the error that stopped a match.
pub open spec fn result_of_tournament(
    r: Result<TournamentResult, VmError>,
    strategies: Seq<(String, Vec<Opcode>)>,
    rounds: u32,
    seed: u64,
) -> bool {
    match (r, tournament_state(programs_of(strategies), rounds, seed)) {
        (Ok(res), TourState::Running(t)) => {
            &&& t.len() == strategies.len()
            &&& forall|k: int|
                0 <= k < t.len() ==> #[trigger] t[k] == strategy_score(
                    programs_of(strategies),
                    rounds,
                    seed,
                    k as nat,
                )
            &&& is_ranking_of(entries(strategies, t), standing_view(res.standings@))
        },
        (Err(e), TourState::Stopped(e2)) => e == e2,
        _ => false,
    }
}

/// Tournaments are reproducible: two results of the same tournament (same
/// strategies, rounds and seed) have the same standings.
pub proof fn lemma_tournament_reproducible(
    r1: Result<TournamentResult, VmError>,
    r2: Result<TournamentResult, VmError>,
    strategies: Seq<(String, Vec<Opcode>)>,
    rounds: u32,
    seed: u64,
)
    requires
        result_of_tournament(r1, strategies, rounds, seed),
        result_of_tournament(r2, strategies, rounds, seed),
    ensures
        match (r1, r2) {
            (Ok(t1), Ok(t2)) => standing_view(t1.standings@) == standing_view(t2.standings@),
            (Err(e1), Err(e2)) => e1 == e2,
            _ => false,
        },
{
    if let (Ok(t1), Ok(t2)) = (r1, r2) {
        if let TourState::Running(t) = tournament_state(programs_of(strategies), rounds, seed) {
            lemma_ranking_unique(
                entries(strategies, t),
                standing_view(t1.standings@),
                standing_view(t2.standings@),
            );
        }
    }
}

/// Plays every strategy against every other for `rounds` rounds and ranks
/// them by total score, highest first (ties keep the strategies' order).
/// Strategy `i` meets strategy `j > i` in seat A, with the seed
/// `(seed + i * n + j) * 0x9e3779b97f4a7c15` (wrapping).
pub fn run_tournament(strategies: &[(String, Vec<Opcode>)], rounds: u32, seed: u64) -> (r: Result<
    TournamentResult,
    VmError,
>)
    requires
        !(tournament_state(programs_of(strategies@), rounds, seed) is Panics),
    ensures
        result_of_tournament(r, strategies@, rounds, seed),
{
    let n = strategies.len();
    let ghost progs = programs_of(strategies@);
    let mut totals: Vec<i32> = vec![0i32; n];
    proof {
        assert(widen(totals@) =~= Seq::new(n as nat, |k: int| 0int));
    }
    let mut i: usize = 0;
    while i < n
        invariant
            i <= n,
            n == strategies@.len(),
            progs == programs_of(strategies@),
            !(tournament_state(progs, rounds, seed) is Panics),
            state_before_row(progs, rounds, seed, i as nat) == TourState::Running(widen(totals@)),
            totals@.len() == n,
            forall|k: int| 0 <= k < n ==> totals@[k] >= 0,
        decreases n - i,
    {
        let mut j: usize = i + 1;
        while j < n
            invariant
                i < n,
                i + 1 <= j <= n,
                n == strategies@.len(),
                progs == programs_of(strategies@),
                !(tournament_state(progs, rounds, seed) is Panics),
                state_in_row(progs, rounds, seed, i as nat, j as nat) == TourState::Running(
                    widen(totals@),
                ),
                totals@.len() == n,
                forall|k: int| 0 <= k < n ==> totals@[k] >= 0,
            decreases n - j,
        {
            let ghost next = state_in_row(progs, rounds, seed, i as nat, (j + 1) as nat);
            proof {
                if !(next is Running) {
                    lemma_tournament_absorbing(progs, rounds, seed, i as nat, (j + 1) as nat);
                }
                assert(progs[i as int] == strategies@[i as int].1@);
                assert(progs[j as int] == strategies@[j as int].1@);
                lemma_running_match(
                    progs[i as int],
                    progs[j as int],
                    match_seed(seed, n as nat, i as nat, j as nat),
                    rounds as nat,
                );
            }
            let index = i * n + j;
            let match_seed = seed.wrapping_add(index as u64).wrapping_mul(SEED_MULTIPLIER);
            let result = match run_match(
                strategies[i].1.as_slice(),
                strategies[j].1.as_slice(),
                rounds,
                match_seed,
            ) {
                Ok(m) => m,
                Err(e) => {
                    return Err(e);
                },
            };
            totals.set(i, totals[i] + result.total_a);
            totals.set(j, totals[j] + result.total_b);
            j = j + 1;
            proof {
                assert(widen(totals@) =~= match next {
                    TourState::Running(t) => t,
                    _ => widen(totals@),
                });
            }
        }
        i = i + 1;
    }
    proof {
        assert(progs.len() == n);
    }
    let standings = rank(strategies, &totals);
    let res = TournamentResult { standings };
    proof {
        assert(tournament_state(progs, rounds, seed) == TourState::Running(widen(totals@)));
        lemma_scores_are_match_sums(progs, rounds, seed);
    }
    Ok(res)
}

} // verus!
