# nodice

Dice expressions such as `2(1d6 + 3(2d4 - d8))`: reading them from text,
writing them back, rolling them, their smallest and largest rolls, the
distribution of their outcomes, and simplification. The library under `src/`
is verified with Verus; `app/` is the command line program and the
floating-point statistics (means, variances, standard deviations).

Layout of `src/`:

- `expr/expr.rs`, `inner.rs`, `binop.rs`, `die.rs`, `scalar.rs`, `modifier.rs`:
  the expression tree, its bounds, rolls and distributions. A roll is
  stated over the faces it draws: `roll_with` sums given faces, and `roll`
  gives what `roll_with` would give on the faces it drew.
- `expr/draws.rs`: what a roll reads of its draws, and the bounds of a roll.
- `expr/parser.rs`: the grammar as spec functions and the parser proved to
  follow it, including where it stops on a text it refuses.
- `expr/display.rs`, `expr/number.rs`: the text of an expression and of numbers.
- `expr/roundtrip.rs`: printing then parsing gives the expression back.
- `expr/simplify.rs`: distributing repeats and folding constants and like
  dice, with what simplification keeps.
- `stats.rs`: distributions of outcomes.
