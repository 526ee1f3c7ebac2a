# prison

An iterated prisoner's dilemma tournament. Strategies are small programs in a
custom assembly language, assembled with customasm and run on a small virtual
machine (four signed 8-bit registers, comparison flags, a xorshift random
number generator). Payoffs: CC=(3,3), CD=(0,5), DC=(5,0), DD=(1,1).

Layout:

- `src/vm.rs`: the machine, its abstract state and the semantics of a round.
- `src/decoder.rs`: bytes to instructions.
- `src/assembler.rs`: source text to bytes, through customasm.
- `src/match_runner.rs`: head-to-head matches and the payoff matrix.
- `src/tournament.rs`: round-robin tournaments and the ranking.
- `src/text.rs`: decimal text for error messages.
- `src/lib.rs`: `run`, one round of a strategy given as source text.
- `app/main.rs`: prints what three sample strategies play.
