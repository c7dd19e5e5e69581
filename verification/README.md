# dice_expr

Dice expressions such as `4d6kh3 + 2`, `d20 + floor(3d6 / 2)` or `max(1d8, 1d8)`.

The library (`src/`, verified with Verus) reads an expression and does the dice mechanics:

- `lexer.rs` turns the input into tokens; numbers stay numerals (digits with at most one `.`).
  It is proved that spacing (which whitespace characters, and trailing whitespace) does not
  change the result.
- `parser.rs` parses tokens by recursive descent into an `Expr`; its grammar is written
  out as spec functions and every parsing function is proved to follow it.
- `text.rs` and `decimal.rs` decide the count of a `kh` (keep highest) modifier: the
  binary64 value nearest to the written count must be a whole number in the range of `u32`.
- `dice.rs` rolls dice through a `DieRoller`, which keeps a record (for proofs) of every
  die it rolls: its sides and the face that came up. `ThreadRoller` implements it on rand's
  `ThreadRng`. It is proved that rolling `count` dice asks the roller for exactly `count`
  dice with `sides` faces, in order, and that keeping the highest is exact.
- `eval.rs` runs an evaluation as a state machine over the expression's steps in postfix
  order: it decides the order of the work, which error stops it and the dice that are
  rolled, and tells its caller, one action at a time, what to do with the values. It is
  proved that a caller that follows the actions never runs short of values and ends with
  exactly one, that every move makes progress or repeats itself, and that a failure or
  the end is final.

The program (`app/main.rs`) takes the expression from the command line, carries out the
evaluation's actions on a stack of floating-point values, and prints the syntax tree,
every roll and the result.
