# move_picker

The part of a chess engine that decides in which order the moves of a position are searched,
written and verified with Verus.

A `MovePicker` gives out the moves one by one: the move of the transposition table, the captures
and promotions that win enough by exchange, the quiet moves, and last the captures and promotions
that were put off. Captures and quiet moves are ordered by scores, highest first.

| Module     | What it holds                                                                  |
|------------|--------------------------------------------------------------------------------|
| `types`    | squares, pieces, moves, bitboards, and `MoveList`, the list of scored moves    |
| `attacks`  | the squares that sets of pieces attack                                         |
| `board`    | what the picker reads of a position                                            |
| `history`  | how well moves did before                                                      |
| `thread`   | the position and the histories of one search thread                            |
| `search`   | the kinds of node                                                              |
| `scoring`  | the scores of noisy and quiet moves                                            |
| `movepick` | `MovePicker`, its state as a mathematical value, and what one call does to it  |
| `laws`     | what holds of pickers over one call and over any series of calls               |

The tests are in `tests/`.
