use vstd::multiset::Multiset;
use vstd::prelude::*;

use crate::board::Board;
use crate::movepick::{Call, PickerState, Stage};
use crate::thread::ThreadData;
use crate::types::{Move, MoveEntry};

verus! {

broadcast use vstd::multiset::group_multiset_axioms;

/// The moves of a sequence other than the hash move, each as often as it occurs.
pub open spec fn others(moves: Seq<Move>, tt_move: Move) -> Multiset<Move> {
    moves.to_multiset().filter(|mv: Move| mv != tt_move)
}

/// The moves that a picker has still to give.
pub open spec fn pending(s: PickerState, board: Board, skip_quiets: bool) -> Multiset<Move> {
    let quiets = if skip_quiets {
        Multiset::empty()
    } else {
        others(board.quiet@, s.tt_move)
    };
    let put_off = s.bad_noisy.skip(s.bad_noisy_idx as int).to_multiset();
    match s.stage {
        Stage::HashMove => (if board.legal@.contains(s.tt_move) {
            Multiset::singleton(s.tt_move)
        } else {
            Multiset::empty()
        }).add(others(board.noisy@, s.tt_move)).add(quiets),
        Stage::GenerateNoisy => others(board.noisy@, s.tt_move).add(quiets),
        Stage::GoodNoisy => others(s.moves, s.tt_move).add(put_off).add(quiets),
        Stage::Quiet => (if skip_quiets {
            Multiset::empty()
        } else {
            others(s.moves, s.tt_move)
        }).add(put_off),
        Stage::BadNoisy => put_off,
    }
}

/// Removing an entry from a list takes exactly that element out.
pub proof fn law_swap_removed<T>(s: Seq<T>, index: int)
    requires
        0 <= index < s.len(),
    ensures
        crate::types::movelist::swap_removed(s, index).to_multiset() == s.to_multiset().remove(s[index]),
{
    broadcast use vstd::seq_lib::group_to_multiset_ensures;

    let t = s.update(index, s.last());
    let n = s.len() - 1;
    vstd::seq_lib::to_multiset_update(s, index, s.last());
    vstd::seq_lib::to_multiset_remove(t, n);
    assert(t.remove(n) =~= crate::types::movelist::swap_removed(s, index));
    assert(s.contains(s[index]));
    assert(s.contains(s.last()));
    assert(s.to_multiset().count(s[index]) > 0);
    assert(s.to_multiset().insert(s.last()).remove(s[index]).remove(s.last())
        =~= s.to_multiset().remove(s[index]));
}

/// Whether moves with their scores hold an entry.
pub open spec fn holds(moves: Seq<Move>, scores: Seq<i32>, entry: MoveEntry) -> bool {
    exists|i: int| 0 <= i < moves.len() && #[trigger] moves[i] == entry.mv && scores[i] == entry.score
}

/// Whether the list of a picker holds an entry.
pub open spec fn lists(s: PickerState, entry: MoveEntry) -> bool {
    holds(s.moves, s.scores, entry)
}

/// Whether a list holds a move that gains too little for its score.
pub open spec fn falls_short(s: PickerState, board: Board, mv: Move) -> bool {
    exists|score: i32| #[trigger]
        lists(s, MoveEntry { mv, score }) && board.exchange_value(mv) < s.required_gain(score as int)
}

/// Taking the best entry off a list: no entry of the list scores more, what stays was there
/// before, and nothing else has gone.
pub proof fn law_best_entry(s: PickerState)
    requires
        s.scores.len() == s.moves.len(),
        s.moves.len() > 0,
    ensures
        s.without_best().scores.len() == s.without_best().moves.len(),
        s.without_best().moves.len() == s.moves.len() - 1,
        s.moves.to_multiset() == s.without_best().moves.to_multiset().insert(s.best_entry().mv),
        lists(s, s.best_entry()),
        forall|e: MoveEntry| #[trigger] lists(s, e) ==> e.score <= s.best_entry().score,
        forall|e: MoveEntry| #[trigger] lists(s, e) ==> e == s.best_entry() || lists(s.without_best(), e),
        forall|e: MoveEntry| #[trigger] lists(s.without_best(), e) ==> lists(s, e),
{
    broadcast use vstd::seq_lib::group_to_multiset_ensures;

    crate::movepick::law_last_max(s.scores);
    let best = crate::movepick::last_max(s.scores);
    let rest = s.without_best();
    law_swap_removed(s.moves, best);
    assert(s.moves.contains(s.moves[best]));
    assert(s.moves.to_multiset().count(s.moves[best]) > 0);
    assert(s.moves.to_multiset() =~= s.moves.to_multiset().remove(s.moves[best]).insert(
        s.moves[best],
    ));
    assert forall|e: MoveEntry| #[trigger] lists(s, e) implies e == s.best_entry() || lists(rest, e) by {
        let i = choose|i: int|
            0 <= i < s.moves.len() && #[trigger] s.moves[i] == e.mv && s.scores[i] == e.score;
        if i != best {
            let j = if i == s.moves.len() - 1 {
                best
            } else {
                i
            };
            assert(rest.moves[j] == e.mv && rest.scores[j] == e.score);
        }
    }
    assert forall|e: MoveEntry| #[trigger] lists(rest, e) implies lists(s, e) by {
        let j = choose|j: int|
            0 <= j < rest.moves.len() && #[trigger] rest.moves[j] == e.mv && rest.scores[j] == e.score;
        let i = if j == best {
            s.moves.len() - 1
        } else {
            j
        };
        assert(s.moves[i] == e.mv && s.scores[i] == e.score);
    }
}

/// Taking one move out of a list takes it out of the others, unless it is the hash move.
proof fn lemma_others_insert(a: Seq<Move>, b: Seq<Move>, mv: Move, tt_move: Move)
    requires
        a.to_multiset() == b.to_multiset().insert(mv),
    ensures
        mv == tt_move ==> others(a, tt_move) == others(b, tt_move),
        mv != tt_move ==> others(a, tt_move) == others(b, tt_move).insert(mv),
{
    if mv == tt_move {
        assert(others(a, tt_move) =~= others(b, tt_move));
    } else {
        assert(others(a, tt_move) =~= others(b, tt_move).insert(mv));
    }
}

/// Taking a good noisy move. It is not the hash move, it gains enough, and no entry left in the
/// list scores more. The moves put off on the way follow those put off before, and each gains too
/// little. Where no move is taken, the list is used up, and no move of it but the hash move gained
/// enough. No move is lost but the hash move, and none is added.
pub proof fn law_take_good_noisy(s: PickerState, board: Board)
    requires
        s.scores.len() == s.moves.len(),
        !s.bad_noisy.contains(s.tt_move),
    ensures
        ({
            let (rest, taken) = s.take_good_noisy(board);
            &&& rest == PickerState {
                moves: rest.moves,
                scores: rest.scores,
                bad_noisy: rest.bad_noisy,
                ..s
            }
            &&& rest.scores.len() == rest.moves.len()
            &&& !rest.bad_noisy.contains(s.tt_move)
            &&& s.bad_noisy.len() <= rest.bad_noisy.len()
            &&& rest.bad_noisy.take(s.bad_noisy.len() as int) == s.bad_noisy
            &&& forall|i: int|
                s.bad_noisy.len() <= i < rest.bad_noisy.len() ==> falls_short(
                    s,
                    board,
                    #[trigger] rest.bad_noisy[i],
                )
            &&& rest.moves.len() + rest.bad_noisy.len() <= s.moves.len() + s.bad_noisy.len()
            &&& forall|e: MoveEntry| #[trigger] lists(rest, e) ==> lists(s, e)
            &&& match taken {
                None => {
                    &&& rest.moves.len() == 0
                    &&& forall|e: MoveEntry| #[trigger]
                        lists(s, e) ==> e.mv == s.tt_move || board.exchange_value(e.mv)
                            < s.required_gain(e.score as int)
                    &&& others(s.moves, s.tt_move).add(s.bad_noisy.to_multiset())
                        == rest.bad_noisy.to_multiset()
                },
                Some(entry) => {
                    &&& entry.mv != s.tt_move
                    &&& rest.moves.len() < s.moves.len()
                    &&& lists(s, entry)
                    &&& board.exchange_value(entry.mv) >= s.required_gain(entry.score as int)
                    &&& forall|e: MoveEntry| #[trigger] lists(rest, e) ==> e.score <= entry.score
                    &&& others(s.moves, s.tt_move).add(s.bad_noisy.to_multiset()) == others(
                        rest.moves,
                        s.tt_move,
                    ).add(rest.bad_noisy.to_multiset()).insert(entry.mv)
                },
            }
        }),
    decreases s.moves.len(),
{
    broadcast use vstd::seq_lib::group_to_multiset_ensures;

    let (rest, taken) = s.take_good_noisy(board);
    let n = s.bad_noisy.len() as int;
    if s.moves.len() == 0 {
        assert(rest.bad_noisy.take(n) =~= s.bad_noisy);
        assert(others(s.moves, s.tt_move).add(s.bad_noisy.to_multiset())
            =~= rest.bad_noisy.to_multiset());
    } else {
        law_best_entry(s);
        let entry = s.best_entry();
        let next = s.without_best();
        lemma_others_insert(s.moves, next.moves, entry.mv, s.tt_move);
        if entry.mv == s.tt_move {
            law_take_good_noisy(next, board);
            assert forall|i: int| n <= i < rest.bad_noisy.len() implies falls_short(
                s,
                board,
                #[trigger] rest.bad_noisy[i],
            ) by {
                lemma_falls_short(s, next, board, rest.bad_noisy[i]);
            }
        } else if board.exchange_value(entry.mv) < s.required_gain(entry.score as int) {
            let off = next.put_off(entry.mv);
            assert forall|i: int| 0 <= i < off.bad_noisy.len() implies off.bad_noisy[i] != s.tt_move by {
                if i < s.bad_noisy.len() {
                    assert(s.bad_noisy.contains(s.bad_noisy[i]));
                }
            }
            assert forall|e: MoveEntry| lists(next, e) == #[trigger] lists(off, e) by {}
            law_take_good_noisy(off, board);
            assert forall|e: MoveEntry| #[trigger]
                lists(s, e) && taken is None && e.mv != s.tt_move implies board.exchange_value(e.mv)
                < s.required_gain(e.score as int) by {
                assert(e == entry || lists(off, e));
            }
            assert(rest.bad_noisy.take(n) =~= rest.bad_noisy.take(n + 1).take(n));
            assert(off.bad_noisy.take(n) =~= s.bad_noisy);
            assert forall|i: int| n <= i < rest.bad_noisy.len() implies falls_short(
                s,
                board,
                #[trigger] rest.bad_noisy[i],
            ) by {
                if i == n {
                    assert(rest.bad_noisy[i] == rest.bad_noisy.take(n + 1)[i]);
                    assert(lists(s, MoveEntry { mv: entry.mv, score: entry.score }));
                } else {
                    lemma_falls_short(s, off, board, rest.bad_noisy[i]);
                }
            }
            assert(others(s.moves, s.tt_move).add(s.bad_noisy.to_multiset()) =~= others(
                off.moves,
                s.tt_move,
            ).add(off.bad_noisy.to_multiset()));
        } else {
            assert(rest.bad_noisy.take(n) =~= s.bad_noisy);
            assert(others(s.moves, s.tt_move).add(s.bad_noisy.to_multiset()) =~= others(
                rest.moves,
                s.tt_move,
            ).add(rest.bad_noisy.to_multiset()).insert(entry.mv));
        }
    }
}

/// A move that gains too little in a part of a list gains too little in the list.
proof fn lemma_falls_short(s: PickerState, part: PickerState, board: Board, mv: Move)
    requires
        falls_short(part, board, mv),
        forall|e: MoveEntry| #[trigger] lists(part, e) ==> lists(s, e),
        part.threshold == s.threshold,
    ensures
        falls_short(s, board, mv),
{
    let score = choose|score: i32| #[trigger]
        lists(part, MoveEntry { mv, score }) && board.exchange_value(mv) < part.required_gain(
            score as int,
        );
    assert(lists(s, MoveEntry { mv, score }));
}

/// Taking a quiet move. It is not the hash move, and no entry left in the list scores more. Where
/// no move is taken, the list is used up and held the hash move alone. No move is lost but the
/// hash move, and none is added.
pub proof fn law_take_quiet(s: PickerState)
    requires
        s.scores.len() == s.moves.len(),
    ensures
        ({
            let (rest, taken) = s.take_quiet();
            &&& rest == PickerState { moves: rest.moves, scores: rest.scores, ..s }
            &&& rest.scores.len() == rest.moves.len()
            &&& forall|e: MoveEntry| #[trigger] lists(rest, e) ==> lists(s, e)
            &&& match taken {
                None => {
                    &&& rest.moves.len() == 0
                    &&& forall|e: MoveEntry| #[trigger] lists(s, e) ==> e.mv == s.tt_move
                    &&& others(s.moves, s.tt_move) == Multiset::<Move>::empty()
                },
                Some(entry) => {
                    &&& entry.mv != s.tt_move
                    &&& rest.moves.len() < s.moves.len()
                    &&& lists(s, entry)
                    &&& forall|e: MoveEntry| #[trigger] lists(rest, e) ==> e.score <= entry.score
                    &&& others(s.moves, s.tt_move) == others(rest.moves, s.tt_move).insert(entry.mv)
                },
            }
        }),
    decreases s.moves.len(),
{
    broadcast use vstd::seq_lib::group_to_multiset_ensures;

    if s.moves.len() == 0 {
        assert(others(s.moves, s.tt_move) =~= Multiset::<Move>::empty());
    } else {
        law_best_entry(s);
        lemma_others_insert(s.moves, s.without_best().moves, s.best_entry().mv, s.tt_move);
        if s.best_entry().mv == s.tt_move {
            law_take_quiet(s.without_best());
        }
    }
}

/// Whether a step gives one of the moves that were still to come and keeps the others, or gives
/// none because there was none.
pub open spec fn conserves(
    s: PickerState,
    out: (PickerState, Option<Move>),
    board: Board,
    skip_quiets: bool,
) -> bool {
    match out.1 {
        None => {
            &&& pending(s, board, skip_quiets) == Multiset::<Move>::empty()
            &&& pending(out.0, board, skip_quiets) == Multiset::<Move>::empty()
        },
        Some(mv) => pending(s, board, skip_quiets) == pending(out.0, board, skip_quiets).insert(mv),
    }
}

proof fn lemma_skip_one(moves: Seq<Move>, i: int)
    requires
        0 <= i < moves.len(),
    ensures
        moves.skip(i).to_multiset() == moves.skip(i + 1).to_multiset().insert(moves[i]),
{
    broadcast use vstd::seq_lib::group_to_multiset_ensures;

    let rest = moves.skip(i);
    vstd::seq_lib::to_multiset_remove(rest, 0);
    assert(rest.remove(0) =~= moves.skip(i + 1));
    assert(rest.contains(rest[0]));
    assert(rest.to_multiset().count(rest[0]) > 0);
    assert(rest.to_multiset() =~= rest.to_multiset().remove(rest[0]).insert(rest[0]));
}

proof fn lemma_next_bad_noisy(s: PickerState, board: Board, skip_quiets: bool)
    requires
        s.stage == Stage::BadNoisy,
        s.bad_noisy_idx <= s.bad_noisy.len(),
    ensures
        conserves(s, s.next_bad_noisy(), board, skip_quiets),
{
    broadcast use vstd::seq_lib::group_to_multiset_ensures;

    if s.bad_noisy_idx < s.bad_noisy.len() {
        lemma_skip_one(s.bad_noisy, s.bad_noisy_idx as int);
    } else {
        assert(s.bad_noisy.skip(s.bad_noisy_idx as int).to_multiset() =~= Multiset::<Move>::empty());
    }
}

proof fn lemma_next_quiet(s: PickerState, call: Call)
    requires
        s.stage == Stage::Quiet,
        s.scores.len() == s.moves.len(),
        s.bad_noisy_idx <= s.bad_noisy.len(),
    ensures
        conserves(s, s.next_quiet(call), call.td.board, call.skip_quiets),
{
    let board = call.td.board;
    let put_off = s.bad_noisy.skip(s.bad_noisy_idx as int).to_multiset();
    if call.skip_quiets {
        lemma_next_bad_noisy(s.at(Stage::BadNoisy), board, true);
        assert(pending(s, board, true) =~= put_off);
    } else {
        law_take_quiet(s);
        let (rest, taken) = s.take_quiet();
        match taken {
            None => {
                lemma_next_bad_noisy(rest.at(Stage::BadNoisy), board, false);
                assert(pending(s, board, false) =~= put_off);
            },
            Some(entry) => {
                assert(pending(s, board, false) =~= others(rest.moves, s.tt_move).add(put_off).insert(
                    entry.mv,
                ));
            },
        }
    }
}

proof fn lemma_next_good_noisy(s: PickerState, call: Call)
    requires
        s.stage == Stage::GoodNoisy,
        s.scores.len() == s.moves.len(),
        s.bad_noisy_idx == 0,
        !s.bad_noisy.contains(s.tt_move),
    ensures
        conserves(s, s.next_good_noisy(call), call.td.board, call.skip_quiets),
{
    let board = call.td.board;
    let quiets = if call.skip_quiets {
        Multiset::empty()
    } else {
        others(board.quiet@, s.tt_move)
    };
    law_take_good_noisy(s, board);
    let (rest, taken) = s.take_good_noisy(board);
    assert(s.bad_noisy.skip(0) =~= s.bad_noisy);
    assert(rest.bad_noisy.skip(0) =~= rest.bad_noisy);
    match taken {
        None => {
            assert(pending(s, board, call.skip_quiets) =~= rest.bad_noisy.to_multiset().add(quiets));
            if call.skip_quiets {
                lemma_next_bad_noisy(rest.at(Stage::BadNoisy), board, true);
                assert(rest.bad_noisy.to_multiset().add(quiets) =~= rest.bad_noisy.to_multiset());
            } else {
                let full = rest.with_quiets(call);
                assert(full.moves =~= board.quiet@);
                lemma_next_quiet(full, call);
                assert(pending(full, board, false) =~= rest.bad_noisy.to_multiset().add(quiets));
            }
        },
        Some(entry) => {
            assert(pending(s, board, call.skip_quiets) =~= others(rest.moves, s.tt_move).add(
                rest.bad_noisy.to_multiset(),
            ).add(quiets).insert(entry.mv));
        },
    }
}

/// One call gives one of the moves that are still to come and keeps all others for later; it
/// gives none only where there is none. Those to come are the hash move, if it is legal, and the
/// noisy and quiet moves other than the hash move; without the quiet moves where they are skipped.
pub proof fn law_next_conserves(s: PickerState, call: Call)
    requires
        s.wf(),
    ensures
        conserves(s, s.next(call), call.td.board, call.skip_quiets),
{
    let board = call.td.board;
    match s.stage {
        Stage::HashMove | Stage::GenerateNoisy => {
            if s.stage == Stage::HashMove && board.legal@.contains(s.tt_move) {
                assert(pending(s, board, call.skip_quiets) =~= pending(
                    s.at(Stage::GenerateNoisy),
                    board,
                    call.skip_quiets,
                ).insert(s.tt_move));
            } else {
                let full = s.with_noisy(call);
                assert(full.moves =~= board.noisy@);
                lemma_next_good_noisy(full, call);
                assert(full.bad_noisy.skip(0).to_multiset() =~= Multiset::<Move>::empty()) by {
                    broadcast use vstd::seq_lib::group_to_multiset_ensures;

                }
                assert(pending(s, board, call.skip_quiets) =~= pending(full, board, call.skip_quiets));
            }
        },
        Stage::GoodNoisy => {
            lemma_next_good_noisy(s, call);
        },
        Stage::Quiet => {
            lemma_next_quiet(s, call);
        },
        Stage::BadNoisy => {
            lemma_next_bad_noisy(s, board, call.skip_quiets);
        },
    }
}

/// How far a stage is from the first.
pub open spec fn rank(stage: Stage) -> int {
    match stage {
        Stage::HashMove => 0,
        Stage::GenerateNoisy => 1,
        Stage::GoodNoisy => 2,
        Stage::Quiet => 3,
        Stage::BadNoisy => 4,
    }
}

proof fn lemma_scored_small(s: PickerState, call: Call)
    ensures
        crate::movepick::small_scores(s.scored_noisy(call.td).scores),
        crate::movepick::small_scores(s.scored_quiet(call.td, call.ply).scores),
{
    let noisy = s.scored_noisy(call.td).scores;
    assert forall|i: int| 0 <= i < noisy.len() implies -0x80_0000 <= #[trigger] noisy[i] < 0x80_0000 by {
        crate::scoring::law_noisy_score_range(call.td, s.moves[i]);
    }
    let quiet = s.scored_quiet(call.td, call.ply).scores;
    assert forall|i: int| 0 <= i < quiet.len() implies -0x80_0000 <= #[trigger] quiet[i] < 0x80_0000 by {
        crate::scoring::law_quiet_score_range(call.td, call.ply, s.moves[i]);
    }
}

/// Scores that come from a list of small scores are small.
proof fn lemma_part_small(s: PickerState, part: PickerState)
    requires
        crate::movepick::small_scores(s.scores),
        part.scores.len() == part.moves.len(),
        s.scores.len() == s.moves.len(),
        forall|e: MoveEntry| #[trigger] lists(part, e) ==> lists(s, e),
    ensures
        crate::movepick::small_scores(part.scores),
{
    assert forall|i: int| 0 <= i < part.scores.len() implies -0x80_0000 <= #[trigger] part.scores[i]
        < 0x80_0000 by {
        let e = MoveEntry { mv: part.moves[i], score: part.scores[i] };
        assert(lists(part, e));
        assert(lists(s, e));
    }
}

proof fn lemma_quiet_sound(s: PickerState, call: Call)
    requires
        s.wf(),
        s.stage == Stage::Quiet,
    ensures
        s.next_quiet(call).0.wf(),
        s.next_quiet(call).0.tt_move == s.tt_move,
        s.next_quiet(call).0.threshold == s.threshold,
        rank(s.next_quiet(call).0.stage) >= rank(Stage::Quiet),
{
    law_take_quiet(s);
    let rest = s.take_quiet().0;
    lemma_part_small(s, rest);
    lemma_scored_small(rest, call);
}

proof fn lemma_good_noisy_sound(s: PickerState, call: Call)
    requires
        s.wf(),
        s.stage == Stage::GoodNoisy,
        !call.skip_quiets && s.take_good_noisy(call.td.board).1 is None ==> call.td.board.quiet@.len()
            <= crate::types::MAX_MOVES,
    ensures
        s.next_good_noisy(call).0.wf(),
        s.next_good_noisy(call).0.tt_move == s.tt_move,
        s.next_good_noisy(call).0.threshold == s.threshold,
        rank(s.next_good_noisy(call).0.stage) >= rank(Stage::GoodNoisy),
{
    law_take_good_noisy(s, call.td.board);
    let (rest, taken) = s.take_good_noisy(call.td.board);
    match taken {
        None => {
            if !call.skip_quiets {
                let full = rest.with_quiets(call);
                lemma_scored_small(rest.at(Stage::Quiet).appended(call.td.board.quiet@), call);
                lemma_quiet_sound(full, call);
            }
        },
        Some(entry) => {
            lemma_scored_small(rest, call);
            lemma_part_small(s, rest);
        },
    }
}

/// A call keeps the state sound, changes neither the hash move nor the threshold, and never goes
/// back to an earlier stage.
pub proof fn law_next_sound(s: PickerState, call: Call)
    requires
        s.wf(),
        s.admits(call),
    ensures
        s.next(call).0.wf(),
        s.next(call).0.tt_move == s.tt_move,
        s.next(call).0.threshold == s.threshold,
        rank(s.next(call).0.stage) >= rank(s.stage),
{
    match s.stage {
        Stage::HashMove | Stage::GenerateNoisy => {
            let full = s.with_noisy(call);
            lemma_scored_small(s.at(Stage::GoodNoisy).appended(call.td.board.noisy@), call);
            if s.generates_noisy(call) {
                lemma_good_noisy_sound(full, call);
            }
        },
        Stage::GoodNoisy => {
            lemma_good_noisy_sound(s, call);
        },
        Stage::Quiet => {
            lemma_quiet_sound(s, call);
        },
        Stage::BadNoisy => {},
    }
}

/// The state after a series of calls.
pub open spec fn after(s: PickerState, calls: Seq<Call>) -> PickerState
    decreases calls.len(),
{
    if calls.len() == 0 {
        s
    } else {
        after(s, calls.drop_last()).next(calls.last()).0
    }
}

/// The moves that a series of calls gives.
pub open spec fn picks(s: PickerState, calls: Seq<Call>) -> Seq<Move>
    decreases calls.len(),
{
    if calls.len() == 0 {
        seq![]
    } else {
        let given = picks(s, calls.drop_last());
        match after(s, calls.drop_last()).next(calls.last()).1 {
            None => given,
            Some(mv) => given.push(mv),
        }
    }
}

/// Whether a call is made at a position with the same moves as another. What was learned of moves,
/// the ply and the kind of node may differ.
pub open spec fn same_moves(call: Call, board: Board) -> bool {
    &&& call.td.board.legal@ == board.legal@
    &&& call.td.board.noisy@ == board.noisy@
    &&& call.td.board.quiet@ == board.quiet@
}

/// Whether all calls of a series are made at a position with the given moves.
pub open spec fn at_position(calls: Seq<Call>, board: Board) -> bool {
    forall|i: int| 0 <= i < calls.len() ==> same_moves(#[trigger] calls[i], board)
}

/// Whether all calls of a series skip the quiet moves, or none does.
pub open spec fn all_skip(calls: Seq<Call>, skip_quiets: bool) -> bool {
    forall|i: int| 0 <= i < calls.len() ==> (#[trigger] calls[i]).skip_quiets == skip_quiets
}

/// Whether each call of a series fits the state it meets.
pub open spec fn all_admitted(s: PickerState, calls: Seq<Call>) -> bool {
    forall|i: int| #![trigger calls[i]]
        0 <= i < calls.len() ==> after(s, calls.take(i)).admits(calls[i])
}

/// A series of calls that are all admitted, without its last call, and that call.
proof fn lemma_admitted_init(s: PickerState, calls: Seq<Call>)
    requires
        all_admitted(s, calls),
        calls.len() > 0,
    ensures
        all_admitted(s, calls.drop_last()),
        after(s, calls.drop_last()).admits(calls.last()),
{
    let init = calls.drop_last();
    let n = calls.len() - 1;
    assert(calls.take(n) =~= init);
    assert(calls.last() == calls[n]);
    assert forall|i: int| #![trigger init[i]] 0 <= i < init.len() implies after(
        s,
        init.take(i),
    ).admits(init[i]) by {
        assert(init.take(i) =~= calls.take(i));
        assert(init[i] == calls[i]);
    }
}

/// A series of calls is admitted where it is so without its last call, and that call is too.
proof fn lemma_admitted_push(s: PickerState, calls: Seq<Call>)
    requires
        calls.len() > 0,
        all_admitted(s, calls.drop_last()),
        after(s, calls.drop_last()).admits(calls.last()),
    ensures
        all_admitted(s, calls),
{
    let init = calls.drop_last();
    assert forall|i: int| #![trigger calls[i]] 0 <= i < calls.len() implies after(
        s,
        calls.take(i),
    ).admits(calls[i]) by {
        if i < init.len() {
            assert(calls.take(i) =~= init.take(i));
            assert(init[i] == calls[i]);
        } else {
            assert(calls.take(i) =~= init);
        }
    }
}

/// What holds of a series of calls holds of the series without its last call.
proof fn lemma_series_init(s: PickerState, calls: Seq<Call>, board: Board)
    requires
        at_position(calls, board),
        all_admitted(s, calls),
        calls.len() > 0,
    ensures
        at_position(calls.drop_last(), board),
        forall|skip_quiets: bool| #[trigger]
            all_skip(calls, skip_quiets) ==> all_skip(calls.drop_last(), skip_quiets),
        all_admitted(s, calls.drop_last()),
        after(s, calls.drop_last()).admits(calls.last()),
{
    lemma_admitted_init(s, calls);
    let init = calls.drop_last();
    assert forall|i: int| 0 <= i < init.len() implies init[i] == #[trigger] calls[i] by {}
}

/// One call of a series: the moves to come are those of the position all calls are made at.
proof fn lemma_series_step(s: PickerState, call: Call, board: Board)
    requires
        s.wf(),
        s.admits(call),
        same_moves(call, board),
    ensures
        s.next(call).0.wf(),
        s.next(call).0.tt_move == s.tt_move,
        conserves(s, s.next(call), board, call.skip_quiets),
{
    law_next_sound(s, call);
    law_next_conserves(s, call);
    let end = s.next(call).0;
    let skip = call.skip_quiets;
    assert(pending(s, call.td.board, skip) == pending(s, board, skip));
    assert(pending(end, call.td.board, skip) == pending(end, board, skip));
}

/// Whether a picker can be used at a position: the kings are on the board, the generated moves fit
/// in a list, and every quiet move, generated or still in the list, has a piece to move.
pub open spec fn fits(s: PickerState, board: Board) -> bool {
    &&& board.wf()
    &&& board.noisy@.len() <= crate::types::MAX_MOVES
    &&& board.quiet@.len() <= crate::types::MAX_MOVES
    &&& board.origins_occupied(board.quiet@)
    &&& s.stage == Stage::Quiet ==> board.origins_occupied(s.moves)
}

/// A picker that fits a position admits every call there, and fits it still after the call.
pub proof fn law_fitting_calls(s: PickerState, call: Call)
    requires
        s.wf(),
        fits(s, call.td.board),
    ensures
        s.admits(call),
        fits(s.next(call).0, call.td.board),
{
    let board = call.td.board;
    let noisy = noisy_list(s, call);
    if noisy.stage == Stage::GoodNoisy {
        law_take_good_noisy(noisy, board);
        let rest = noisy.take_good_noisy(board).0;
        let full = rest.with_quiets(call);
        assert(rest.moves.len() == 0 ==> full.moves =~= board.quiet@);
        if rest.moves.len() == 0 {
            lemma_taken_occupied(full, board);
        }
        law_take_quiet(full);
    } else if s.stage == Stage::Quiet {
        law_take_quiet(s);
        lemma_taken_occupied(s, board);
    }
}

/// The moves left after taking a quiet move have a piece to move where all moves had one.
proof fn lemma_taken_occupied(s: PickerState, board: Board)
    requires
        s.scores.len() == s.moves.len(),
        board.origins_occupied(s.moves),
    ensures
        board.origins_occupied(s.take_quiet().0.moves),
{
    law_take_quiet(s);
    let rest = s.take_quiet().0;
    assert forall|i: int| 0 <= i < rest.moves.len() implies board.spec_type_on(
        (#[trigger] rest.moves[i]).spec_from(),
    ) != crate::types::PieceType::Empty by {
        let e = MoveEntry { mv: rest.moves[i], score: rest.scores[i] };
        assert(lists(rest, e));
        assert(lists(s, e));
    }
}

/// A picker that fits a position admits any series of calls that are all made there. What was
/// learned of moves may change from call to call.
pub proof fn law_fitting_series(s: PickerState, calls: Seq<Call>, board: Board)
    requires
        s.wf(),
        fits(s, board),
        forall|i: int| 0 <= i < calls.len() ==> (#[trigger] calls[i]).td.board == board,
    ensures
        all_admitted(s, calls),
        after(s, calls).wf(),
        fits(after(s, calls), board),
    decreases calls.len(),
{
    if calls.len() > 0 {
        let init = calls.drop_last();
        let call = calls[calls.len() - 1];
        assert forall|i: int| 0 <= i < init.len() implies (#[trigger] init[i]).td.board == board by {
            assert(init[i] == calls[i]);
        }
        law_fitting_series(s, init, board);
        law_fitting_calls(after(s, init), call);
        law_next_sound(after(s, init), call);
        lemma_admitted_push(s, calls);
    }
}

/// A picker as it is made: for a node with or without a hash move, and for moves that must gain a
/// given amount or as much as their score asks for.
pub open spec fn new_picker(tt_move: Move, threshold: Option<i32>) -> PickerState {
    PickerState::initial(
        tt_move,
        threshold,
        if tt_move == Move::null() {
            Stage::GenerateNoisy
        } else {
            Stage::HashMove
        },
    )
}

/// Over any series of calls at one position, the moves given and the moves still to come are
/// together the moves that were to come at the start: none is lost, none comes twice, and no more
/// are given than were to come.
pub proof fn law_series_conserves(s: PickerState, calls: Seq<Call>, board: Board, skip_quiets: bool)
    requires
        s.wf(),
        at_position(calls, board),
        all_skip(calls, skip_quiets),
        all_admitted(s, calls),
    ensures
        after(s, calls).wf(),
        after(s, calls).tt_move == s.tt_move,
        pending(s, board, skip_quiets) == picks(s, calls).to_multiset().add(
            pending(after(s, calls), board, skip_quiets),
        ),
        picks(s, calls).len() <= pending(s, board, skip_quiets).len(),
    decreases calls.len(),
{
    let start = pending(s, board, skip_quiets);
    let end = pending(after(s, calls), board, skip_quiets);
    let given = picks(s, calls).to_multiset();
    if calls.len() == 0 {
        assert(given =~= Multiset::<Move>::empty()) by {
            broadcast use vstd::seq_lib::group_to_multiset_ensures;

        }
        assert(start =~= given.add(end));
    } else {
        let init = calls.drop_last();
        let call = calls[calls.len() - 1];
        lemma_series_init(s, calls, board);
        law_series_conserves(s, init, board, skip_quiets);
        let mid = after(s, init);
        lemma_series_step(mid, call, board);
        match mid.next(call).1 {
            None => {
                assert(start =~= given.add(end));
            },
            Some(mv) => {
                vstd::seq_lib::to_multiset_build(picks(s, init), mv);
                assert(start =~= given.add(end));
            },
        }
    }
    vstd::seq_lib::to_multiset_len(picks(s, calls));
}

/// When a series of calls at one position ends with no move, it has given every move that was to
/// come at the start exactly once, and nothing else. For a new picker these are the hash move, if
/// it is legal, and all noisy and quiet moves of the position but the hash move.
pub proof fn law_every_move_once(s: PickerState, calls: Seq<Call>, board: Board, skip_quiets: bool)
    requires
        s.wf(),
        at_position(calls, board),
        all_skip(calls, skip_quiets),
        all_admitted(s, calls),
        calls.len() > 0,
        after(s, calls.drop_last()).next(calls.last()).1 is None,
    ensures
        picks(s, calls).to_multiset() == pending(s, board, skip_quiets),
{
    let init = calls.drop_last();
    let call = calls[calls.len() - 1];
    law_series_conserves(s, calls, board, skip_quiets);
    lemma_series_init(s, calls, board);
    law_series_conserves(s, init, board, skip_quiets);
    lemma_series_step(after(s, init), call, board);
    assert(picks(s, calls).to_multiset() =~= pending(s, board, skip_quiets));
}

/// A new picker, called at one position until it gives no move, gives the hash move, if there is
/// one and it is legal, and every noisy and quiet move other than the hash move, each as often as
/// it was generated; without the quiet moves where they are skipped.
pub proof fn law_new_picker_gives_all(
    tt_move: Move,
    threshold: Option<i32>,
    calls: Seq<Call>,
    board: Board,
    skip_quiets: bool,
)
    requires
        at_position(calls, board),
        all_skip(calls, skip_quiets),
        all_admitted(new_picker(tt_move, threshold), calls),
        calls.len() > 0,
        after(new_picker(tt_move, threshold), calls.drop_last()).next(calls.last()).1 is None,
    ensures
        picks(new_picker(tt_move, threshold), calls).to_multiset() == (if tt_move != Move::null()
            && board.legal@.contains(tt_move) {
            Multiset::singleton(tt_move)
        } else {
            Multiset::empty()
        }).add(others(board.noisy@, tt_move)).add(
            if skip_quiets {
                Multiset::empty()
            } else {
                others(board.quiet@, tt_move)
            },
        ),
{
    let s = new_picker(tt_move, threshold);
    law_every_move_once(s, calls, board, skip_quiets);
    if tt_move == Move::null() {
        let noisy = others(board.noisy@, tt_move);
        assert(Multiset::<Move>::empty().add(noisy) =~= noisy);
    }
}

/// Over any series of calls at one position, whichever of them skip the quiet moves, the moves
/// given and those still to come are among those that were to come at the start.
pub proof fn law_series_adds_nothing(s: PickerState, calls: Seq<Call>, board: Board)
    requires
        s.wf(),
        at_position(calls, board),
        all_admitted(s, calls),
    ensures
        after(s, calls).wf(),
        after(s, calls).tt_move == s.tt_move,
        picks(s, calls).to_multiset().add(pending(after(s, calls), board, false)).subset_of(
            pending(s, board, false),
        ),
    decreases calls.len(),
{
    let start = pending(s, board, false);
    let end = pending(after(s, calls), board, false);
    let given = picks(s, calls).to_multiset();
    if calls.len() == 0 {
        assert(given =~= Multiset::<Move>::empty()) by {
            broadcast use vstd::seq_lib::group_to_multiset_ensures;

        }
        assert(start =~= given.add(end));
    } else {
        let init = calls.drop_last();
        let call = calls[calls.len() - 1];
        lemma_series_init(s, calls, board);
        law_series_adds_nothing(s, init, board);
        let mid = after(s, init);
        lemma_step_adds_nothing(mid, call, board);
        if let Some(mv) = mid.next(call).1 {
            vstd::seq_lib::to_multiset_build(picks(s, init), mv);
        }
        assert forall|mv: Move| given.add(end).count(mv) <= start.count(mv) by {
            assert(picks(s, init).to_multiset().add(pending(mid, board, false)).count(mv)
                <= start.count(mv));
        }
    }
}

proof fn lemma_step_adds_nothing(s: PickerState, call: Call, board: Board)
    requires
        s.wf(),
        s.admits(call),
        same_moves(call, board),
    ensures
        s.next(call).0.wf(),
        s.next(call).0.tt_move == s.tt_move,
        ({
            let (t, given) = s.next(call);
            let left = pending(t, board, false);
            (match given {
                None => left,
                Some(mv) => left.insert(mv),
            }).subset_of(pending(s, board, false))
        }),
{
    lemma_series_step(s, call, board);
    if call.skip_quiets {
        law_stages(s, call);
        law_next_sound(s, call);
        let t = s.next(call).0;
        assert forall|mv: Move| #[trigger] pending(s, board, true).count(mv) <= pending(
            s,
            board,
            false,
        ).count(mv) by {}
        if rank(t.stage) < rank(Stage::Quiet) {
            let quiets = others(board.quiet@, s.tt_move);
            assert(pending(s, board, false) =~= pending(s, board, true).add(quiets));
            assert(pending(t, board, false) =~= pending(t, board, true).add(quiets));
        } else {
            assert(pending(t, board, false) =~= pending(t, board, true));
        }
    }
}

/// Where no move is generated twice, a new picker gives none twice, at whatever point the series
/// of calls ends and whichever calls skip the quiet moves.
pub proof fn law_no_move_twice(
    tt_move: Move,
    threshold: Option<i32>,
    calls: Seq<Call>,
    board: Board,
)
    requires
        at_position(calls, board),
        all_admitted(new_picker(tt_move, threshold), calls),
        (board.noisy@ + board.quiet@).no_duplicates(),
    ensures
        picks(new_picker(tt_move, threshold), calls).no_duplicates(),
{
    broadcast use vstd::seq_lib::group_to_multiset_ensures;

    let s = new_picker(tt_move, threshold);
    let given = picks(s, calls);
    let both = board.noisy@ + board.quiet@;
    law_series_adds_nothing(s, calls, board);
    both.lemma_multiset_has_no_duplicates();
    vstd::seq_lib::lemma_multiset_commutative(board.noisy@, board.quiet@);
    assert forall|mv: Move| given.to_multiset().contains(mv) implies #[trigger] given.to_multiset().count(
        mv,
    ) == 1 by {
        assert(given.to_multiset().add(pending(after(s, calls), board, false)).count(mv) <= pending(
            s,
            board,
            false,
        ).count(mv));
        assert(both.to_multiset().count(mv) == board.noisy@.to_multiset().count(mv)
            + board.quiet@.to_multiset().count(mv));
        assert(both.to_multiset().count(mv) <= 1) by {
            if both.to_multiset().count(mv) > 0 {
                assert(both.to_multiset().contains(mv));
            }
        }
    }
    given.lemma_multiset_has_no_duplicates_conv();
}

/// A legal hash move comes first, before any move is generated.
pub proof fn law_hash_move_first(s: PickerState, call: Call)
    requires
        s.wf(),
        s.stage == Stage::HashMove,
        call.td.board.legal@.contains(s.tt_move),
    ensures
        s.next(call) == (s.at(Stage::GenerateNoisy), Some(s.tt_move)),
{
}

/// The hash move is given at no other time.
pub proof fn law_hash_move_once(s: PickerState, call: Call)
    requires
        s.wf(),
        s.stage != Stage::HashMove || !call.td.board.legal@.contains(s.tt_move),
    ensures
        s.next(call).1 != Some(s.tt_move),
{
    broadcast use vstd::seq_lib::group_to_multiset_ensures;

    law_next_conserves(s, call);
    let tail = s.bad_noisy.skip(s.bad_noisy_idx as int);
    assert(!tail.contains(s.tt_move)) by {
        if tail.contains(s.tt_move) {
            let i = tail.index_of(s.tt_move);
            assert(s.bad_noisy[i + s.bad_noisy_idx] == s.tt_move);
        }
    }
    assert(tail.to_multiset().count(s.tt_move) == 0);
    assert(pending(s, call.td.board, call.skip_quiets).count(s.tt_move) == 0);
}

/// The list that a call takes good noisy moves from: the one it generates, or the one there is.
pub open spec fn noisy_list(s: PickerState, call: Call) -> PickerState {
    if s.generates_noisy(call) {
        s.with_noisy(call)
    } else {
        s
    }
}

/// The list that a call takes quiet moves from: the one it generates, or the one there is.
pub open spec fn quiet_list(s: PickerState, call: Call) -> PickerState {
    if s.stage == Stage::Quiet {
        s
    } else {
        noisy_list(s, call).take_good_noisy(call.td.board).0.with_quiets(call)
    }
}

/// The stage that a call ends in tells what it gave. In the stage of good noisy moves, a move that
/// gains enough, and no entry of the list it came from that gains enough and is not the hash move
/// scores more. In the stage of quiet moves, a quiet move, and no entry of the list it came from
/// but the hash move scores more. In the last stage, the next of the moves put off, or nothing once
/// all of them are given. And before the stage of good noisy moves is left, every move of it that
/// gains enough has been given.
pub proof fn law_stages(s: PickerState, call: Call)
    requires
        s.wf(),
    ensures
        ({
            let (t, given) = s.next(call);
            let board = call.td.board;
            let noisy = noisy_list(s, call);
            &&& t.stage != Stage::HashMove
            &&& t.stage == Stage::GenerateNoisy ==> given == Some(s.tt_move)
            &&& t.stage == Stage::GoodNoisy ==> {
                &&& given is Some
                &&& exists|score: i32| #[trigger]
                    lists(noisy, MoveEntry { mv: given->0, score }) && board.exchange_value(given->0)
                        >= s.required_gain(score as int) && forall|e: MoveEntry| #[trigger]
                        lists(noisy, e) && e.mv != s.tt_move && board.exchange_value(e.mv)
                            >= s.required_gain(e.score as int) ==> e.score <= score
            }
            &&& t.stage == Stage::Quiet ==> {
                &&& !call.skip_quiets
                &&& given is Some
                &&& s.stage != Stage::Quiet ==> quiet_list(s, call).moves == board.quiet@
                &&& exists|score: i32| #[trigger]
                    lists(quiet_list(s, call), MoveEntry { mv: given->0, score }) && forall|
                        e: MoveEntry,
                    | #[trigger]
                        lists(quiet_list(s, call), e) && e.mv != s.tt_move ==> e.score <= score
            }
            &&& t.stage == Stage::BadNoisy ==> {
                &&& given is None ==> t.bad_noisy_idx == t.bad_noisy.len()
                &&& given is Some ==> t.bad_noisy_idx > 0 && given->0 == t.bad_noisy[t.bad_noisy_idx - 1]
            }
            &&& rank(s.stage) <= rank(Stage::GoodNoisy) && rank(t.stage) > rank(Stage::GoodNoisy)
                ==> forall|e: MoveEntry| #[trigger]
                lists(noisy, e) ==> e.mv == s.tt_move || board.exchange_value(e.mv) < s.required_gain(
                    e.score as int,
                )
        }),
{
    let board = call.td.board;
    let (t, given) = s.next(call);
    let noisy = noisy_list(s, call);
    if noisy.stage == Stage::GoodNoisy {
        law_take_good_noisy(noisy, board);
        let (rest, taken) = noisy.take_good_noisy(board);
        match taken {
            None => {
                if !call.skip_quiets {
                    let full = rest.with_quiets(call);
                    assert(full.moves =~= board.quiet@);
                    lemma_best_quiet(full);
                    law_take_quiet(full);
                    if let Some(entry) = full.take_quiet().1 {
                        assert(lists(full, MoveEntry { mv: given->0, score: entry.score }));
                    }
                }
            },
            Some(entry) => {
                lemma_best_of_good(noisy, board);
                assert(lists(noisy, MoveEntry { mv: given->0, score: entry.score }));
            },
        }
    } else if s.stage == Stage::Quiet {
        lemma_best_quiet(s);
        law_take_quiet(s);
        if let Some(entry) = s.take_quiet().1 {
            if !call.skip_quiets {
                assert(lists(s, MoveEntry { mv: given->0, score: entry.score }));
            }
        }
    }
}

/// No entry but the hash move scores more than the quiet move that is taken.
proof fn lemma_best_quiet(s: PickerState)
    requires
        s.scores.len() == s.moves.len(),
    ensures
        s.take_quiet().1 is Some ==> forall|e: MoveEntry| #[trigger]
            lists(s, e) && e.mv != s.tt_move ==> e.score <= s.take_quiet().1->0.score,
    decreases s.moves.len(),
{
    if s.moves.len() > 0 {
        law_best_entry(s);
        if s.best_entry().mv == s.tt_move {
            lemma_best_quiet(s.without_best());
        }
    }
}

/// No entry that gains enough scores more than the good noisy move that is taken.
proof fn lemma_best_of_good(s: PickerState, board: Board)
    requires
        s.scores.len() == s.moves.len(),
        s.take_good_noisy(board).1 is Some,
    ensures
        forall|e: MoveEntry| #[trigger]
            lists(s, e) && e.mv != s.tt_move && board.exchange_value(e.mv) >= s.required_gain(
                e.score as int,
            ) ==> e.score <= s.take_good_noisy(board).1->0.score,
    decreases s.moves.len(),
{
    law_best_entry(s);
    let entry = s.best_entry();
    let next = s.without_best();
    if entry.mv == s.tt_move {
        lemma_best_of_good(next, board);
    } else if board.exchange_value(entry.mv) < s.required_gain(entry.score as int) {
        let off = next.put_off(entry.mv);
        lemma_best_of_good(off, board);
        assert forall|e: MoveEntry| #[trigger]
            lists(s, e) && e.mv != s.tt_move && board.exchange_value(e.mv) >= s.required_gain(
                e.score as int,
            ) implies e.score <= s.take_good_noisy(board).1->0.score by {
            assert(lists(off, e));
        }
    }
}

/// As long as the list is not scored anew, good noisy moves come in descending order of score.
pub proof fn law_good_noisy_descend(s: PickerState, first: Board, second: Board)
    requires
        s.scores.len() == s.moves.len(),
        !s.bad_noisy.contains(s.tt_move),
        s.take_good_noisy(first).1 is Some,
        s.take_good_noisy(first).0.take_good_noisy(second).1 is Some,
    ensures
        s.take_good_noisy(first).0.take_good_noisy(second).1->0.score <= s.take_good_noisy(
            first,
        ).1->0.score,
{
    law_take_good_noisy(s, first);
    law_take_good_noisy(s.take_good_noisy(first).0, second);
}

/// As long as the list is not scored anew, quiet moves come in descending order of score.
pub proof fn law_quiets_descend(s: PickerState)
    requires
        s.scores.len() == s.moves.len(),
        s.take_quiet().1 is Some,
        s.take_quiet().0.take_quiet().1 is Some,
    ensures
        s.take_quiet().0.take_quiet().1->0.score <= s.take_quiet().1->0.score,
{
    law_take_quiet(s);
    law_take_quiet(s.take_quiet().0);
}

/// Below the root a call leaves the scores of the list as they are; at the root it scores anew the
/// list that the move it gives came from.
pub proof fn law_scores_anew_at_root(s: PickerState, call: Call)
    requires
        s.wf(),
    ensures
        ({
            let t = s.next(call).0;
            &&& call.root && t.stage == Stage::GoodNoisy ==> t == t.scored_noisy(call.td)
            &&& call.root && t.stage == Stage::Quiet ==> t == t.scored_quiet(call.td, call.ply)
            &&& !call.root && s.stage == t.stage ==> forall|e: MoveEntry| #[trigger]
                lists(t, e) ==> lists(s, e)
        }),
{
    let noisy = noisy_list(s, call);
    if noisy.stage == Stage::GoodNoisy {
        law_take_good_noisy(noisy, call.td.board);
        let rest = noisy.take_good_noisy(call.td.board).0;
        if !call.skip_quiets {
            law_take_quiet(rest.with_quiets(call));
        }
    } else if s.stage == Stage::Quiet {
        law_take_quiet(s);
    }
}

/// A picker that has given its last move gives none ever after, whatever the position.
pub proof fn law_end_is_final(s: PickerState, call: Call, later: Call)
    requires
        s.wf(),
        s.next(call).1 is None,
    ensures
        s.next(call).0.next(later) == (s.next(call).0, None::<Move>),
{
    law_stages(s, call);
    law_next_conserves(s, call);
    let t = s.next(call).0;
    let noisy = noisy_list(s, call);
    if noisy.stage == Stage::GoodNoisy {
        law_take_good_noisy(noisy, call.td.board);
    }
}

/// The moves put off come back in the order in which they were put off.
pub proof fn law_put_off_in_order(s: PickerState, calls: Seq<Call>)
    requires
        s.stage == Stage::BadNoisy,
        s.bad_noisy_idx + calls.len() <= s.bad_noisy.len(),
    ensures
        picks(s, calls) == s.bad_noisy.subrange(
            s.bad_noisy_idx as int,
            (s.bad_noisy_idx + calls.len()) as int,
        ),
        after(s, calls) == (PickerState { bad_noisy_idx: s.bad_noisy_idx + calls.len(), ..s }),
    decreases calls.len(),
{
    if calls.len() > 0 {
        law_put_off_in_order(s, calls.drop_last());
    }
    assert(picks(s, calls) =~= s.bad_noisy.subrange(
        s.bad_noisy_idx as int,
        (s.bad_noisy_idx + calls.len()) as int,
    ));
}

/// A call that skips the quiet moves gives none: what it gives is the hash move or a noisy move,
/// generated now or before.
pub proof fn law_skip_gives_no_quiets(s: PickerState, call: Call, mv: Move)
    requires
        s.wf(),
        call.skip_quiets,
        s.next(call).1 == Some(mv),
    ensures
        match s.stage {
            Stage::HashMove => mv == s.tt_move || call.td.board.noisy@.contains(mv),
            Stage::GenerateNoisy => call.td.board.noisy@.contains(mv),
            Stage::GoodNoisy => s.moves.contains(mv) || s.bad_noisy.contains(mv),
            _ => s.bad_noisy.contains(mv),
        },
{
    broadcast use vstd::seq_lib::group_to_multiset_ensures;

    law_next_conserves(s, call);
    assert(pending(s, call.td.board, true).count(mv) > 0);
    let tail = s.bad_noisy.skip(s.bad_noisy_idx as int);
    if tail.to_multiset().count(mv) > 0 {
        let i = tail.index_of(mv);
        assert(s.bad_noisy[i + s.bad_noisy_idx] == mv);
    }
    assert(call.td.board.noisy@.to_multiset().count(mv) > 0 ==> call.td.board.noisy@.contains(mv));
    assert(s.moves.to_multiset().count(mv) > 0 ==> s.moves.contains(mv));
}

/// With a threshold, the moves given in the stage of good noisy moves gain at least that much, and
/// each move put off meanwhile gains less.
pub proof fn law_threshold(s: PickerState, call: Call, threshold: i32)
    requires
        s.wf(),
        s.threshold == Some(threshold),
    ensures
        ({
            let (t, given) = s.next(call);
            let board = call.td.board;
            &&& t.stage == Stage::GoodNoisy ==> given is Some && board.exchange_value(given->0)
                >= threshold
            &&& forall|i: int|
                s.bad_noisy.len() <= i < t.bad_noisy.len() ==> board.exchange_value(
                    #[trigger] t.bad_noisy[i],
                ) < threshold
        }),
{
    let board = call.td.board;
    law_stages(s, call);
    let noisy = noisy_list(s, call);
    if noisy.stage == Stage::GoodNoisy {
        law_take_good_noisy(noisy, board);
        let rest = noisy.take_good_noisy(board).0;
        assert forall|i: int| s.bad_noisy.len() <= i < rest.bad_noisy.len() implies board.exchange_value(
            #[trigger] rest.bad_noisy[i],
        ) < threshold by {
            assert(falls_short(noisy, board, rest.bad_noisy[i]));
        }
        if !call.skip_quiets {
            law_take_quiet(rest.with_quiets(call));
        }
    } else if s.stage == Stage::Quiet {
        law_take_quiet(s);
    }
}

/// Whether the scores of a list are those that its moves have with the given histories and ply.
pub open spec fn scored_by(s: PickerState, td: ThreadData, ply: int) -> bool {
    &&& s.stage == Stage::GoodNoisy ==> s == s.scored_noisy(td)
    &&& s.stage == Stage::Quiet ==> s == s.scored_quiet(td, ply)
}

/// Entries taken over from a list that is scored as noisy moves are so scored.
proof fn lemma_part_scored_noisy(s: PickerState, part: PickerState, td: ThreadData)
    requires
        s == s.scored_noisy(td),
        part.scores.len() == part.moves.len(),
        forall|e: MoveEntry| #[trigger] lists(part, e) ==> lists(s, e),
    ensures
        part == part.scored_noisy(td),
{
    let scored = part.scored_noisy(td);
    assert forall|i: int| 0 <= i < part.scores.len() implies part.scores[i] == #[trigger] scored.scores[i] by {
        let e = MoveEntry { mv: part.moves[i], score: part.scores[i] };
        assert(lists(part, e));
        assert(lists(s, e));
        let j = choose|j: int|
            0 <= j < s.moves.len() && #[trigger] s.moves[j] == e.mv && s.scores[j] == e.score;
        assert(s.scored_noisy(td).scores[j] == crate::scoring::spec_noisy_score(td, e.mv) as i32);
    }
    assert(part.scores =~= scored.scores);
}

/// Entries taken over from a list that is scored as quiet moves are so scored.
proof fn lemma_part_scored_quiet(s: PickerState, part: PickerState, td: ThreadData, ply: int)
    requires
        s == s.scored_quiet(td, ply),
        part.scores.len() == part.moves.len(),
        forall|e: MoveEntry| #[trigger] lists(part, e) ==> lists(s, e),
    ensures
        part == part.scored_quiet(td, ply),
{
    let scored = part.scored_quiet(td, ply);
    assert forall|i: int| 0 <= i < part.scores.len() implies part.scores[i] == #[trigger] scored.scores[i] by {
        let e = MoveEntry { mv: part.moves[i], score: part.scores[i] };
        assert(lists(part, e));
        assert(lists(s, e));
        let j = choose|j: int|
            0 <= j < s.moves.len() && #[trigger] s.moves[j] == e.mv && s.scores[j] == e.score;
        assert(s.scored_quiet(td, ply).scores[j] == crate::scoring::spec_quiet_score(td, ply, e.mv) as i32);
    }
    assert(part.scores =~= scored.scores);
}

/// As long as the histories and the ply do not change, the kind of node makes no difference: at
/// the root and below it a call gives the same move and leaves the same state.
pub proof fn law_root_is_no_difference(s: PickerState, call: Call)
    requires
        s.wf(),
        scored_by(s, call.td, call.ply),
    ensures
        s.next(Call { root: true, ..call }) == s.next(Call { root: false, ..call }),
        scored_by(s.next(call).0, call.td, call.ply),
{
    let td = call.td;
    let noisy = noisy_list(s, call);
    let at_root = Call { root: true, ..call };
    let below = Call { root: false, ..call };
    if noisy.stage == Stage::GoodNoisy {
        assert(noisy == noisy.scored_noisy(td));
        law_take_good_noisy(noisy, td.board);
        let rest = noisy.take_good_noisy(td.board).0;
        lemma_part_scored_noisy(noisy, rest, td);
        let full = rest.with_quiets(call);
        assert(full == rest.with_quiets(at_root) && full == rest.with_quiets(below));
        assert(full == full.scored_quiet(td, call.ply));
        law_take_quiet(full);
        lemma_part_scored_quiet(full, full.take_quiet().0, td, call.ply);
        assert(s.with_noisy(at_root) == s.with_noisy(call));
        assert(s.with_noisy(below) == s.with_noisy(call));
    } else if s.stage == Stage::Quiet {
        law_take_quiet(s);
        lemma_part_scored_quiet(s, s.take_quiet().0, td, call.ply);
    }
}

/// As long as the histories and the ply do not change, a picker driven at the root and one driven
/// below it give the same moves, over any series of calls.
pub proof fn law_root_series_is_no_difference(
    s: PickerState,
    calls: Seq<Call>,
    twins: Seq<Call>,
    td: ThreadData,
    ply: int,
)
    requires
        s.wf(),
        scored_by(s, td, ply),
        all_admitted(s, calls),
        calls.len() == twins.len(),
        forall|i: int| #![trigger calls[i]] #![trigger twins[i]]
            0 <= i < calls.len() ==> {
                &&& calls[i].td == td && calls[i].ply == ply
                &&& twins[i] == Call { root: twins[i].root, ..calls[i] }
            },
    ensures
        after(s, calls) == after(s, twins),
        picks(s, calls) == picks(s, twins),
        after(s, calls).wf(),
        scored_by(after(s, calls), td, ply),
    decreases calls.len(),
{
    if calls.len() > 0 {
        let n = calls.len() - 1;
        let init = calls.drop_last();
        let twin_init = twins.drop_last();
        lemma_admitted_init(s, calls);
        assert forall|i: int| #![trigger init[i]] #![trigger twin_init[i]] 0 <= i < init.len() implies {
            &&& init[i].td == td && init[i].ply == ply
            &&& twin_init[i] == Call { root: twin_init[i].root, ..init[i] }
        } by {
            assert(init[i] == calls[i] && twin_init[i] == twins[i]);
        }
        law_root_series_is_no_difference(s, init, twin_init, td, ply);
        let mid = after(s, init);
        let call = calls[n];
        let twin = twins[n];
        law_next_sound(mid, call);
        law_root_is_no_difference(mid, call);
        assert(call == Call { root: true, ..call } || call == Call { root: false, ..call });
        assert(twin == Call { root: true, ..call } || twin == Call { root: false, ..call });
        assert(mid.next(call) == mid.next(twin));
    }
}

/// The moves that the calls of a series give in the last stage.
pub open spec fn late_picks(s: PickerState, calls: Seq<Call>) -> Seq<Move>
    decreases calls.len(),
{
    if calls.len() == 0 {
        seq![]
    } else {
        let given = late_picks(s, calls.drop_last());
        let (t, mv) = after(s, calls.drop_last()).next(calls.last());
        if t.stage == Stage::BadNoisy && mv is Some {
            given.push(mv->0)
        } else {
            given
        }
    }
}

/// Whether a move gained too little when one of the calls of a series came to it.
pub open spec fn fell_short(s: PickerState, calls: Seq<Call>, mv: Move) -> bool {
    exists|i: int|
        0 <= i < calls.len() && falls_short(
            noisy_list(after(s, calls.take(i)), #[trigger] calls[i]),
            calls[i].td.board,
            mv,
        )
}

/// What one call does to the moves put off: it adds only moves that gain too little, after the
/// others, and in the last stage it gives the next of them.
proof fn lemma_next_put_off(s: PickerState, call: Call)
    requires
        s.wf(),
    ensures
        ({
            let (t, given) = s.next(call);
            &&& s.bad_noisy.len() <= t.bad_noisy.len()
            &&& t.bad_noisy.take(s.bad_noisy.len() as int) == s.bad_noisy
            &&& forall|i: int|
                s.bad_noisy.len() <= i < t.bad_noisy.len() ==> falls_short(
                    noisy_list(s, call),
                    call.td.board,
                    #[trigger] t.bad_noisy[i],
                )
            &&& if t.stage == Stage::BadNoisy && given is Some {
                &&& t.bad_noisy_idx == s.bad_noisy_idx + 1
                &&& t.bad_noisy_idx <= t.bad_noisy.len()
                &&& given->0 == t.bad_noisy[s.bad_noisy_idx as int]
            } else {
                t.bad_noisy_idx == s.bad_noisy_idx
            }
        }),
{
    let board = call.td.board;
    let noisy = noisy_list(s, call);
    let t = s.next(call).0;
    if noisy.stage == Stage::GoodNoisy {
        law_take_good_noisy(noisy, board);
        let rest = noisy.take_good_noisy(board).0;
        law_take_quiet(rest.with_quiets(call));
        assert(t.bad_noisy == rest.bad_noisy);
    } else {
        if s.stage == Stage::Quiet {
            law_take_quiet(s);
        }
        assert(t.bad_noisy == s.bad_noisy);
        assert(t.bad_noisy.take(s.bad_noisy.len() as int) =~= s.bad_noisy);
    }
}

/// A move that gained too little in a series of calls, or in the call that follows it, did so in
/// the longer series.
proof fn lemma_fell_short_extends(s: PickerState, calls: Seq<Call>, mv: Move)
    requires
        calls.len() > 0,
        fell_short(s, calls.drop_last(), mv) || falls_short(
            noisy_list(after(s, calls.drop_last()), calls.last()),
            calls.last().td.board,
            mv,
        ),
    ensures
        fell_short(s, calls, mv),
{
    let n = calls.len() - 1;
    let init = calls.drop_last();
    if fell_short(s, init, mv) {
        let j = choose|j: int|
            0 <= j < init.len() && falls_short(
                noisy_list(after(s, init.take(j)), #[trigger] init[j]),
                init[j].td.board,
                mv,
            );
        assert(calls[j] == init[j]);
        assert(calls.take(j) =~= init.take(j));
    } else {
        assert(calls.take(n) =~= init);
        assert(calls[n] == calls.last());
    }
}

/// What one call adds to the moves put off that were given: the move it gives in the last stage.
proof fn lemma_late_step(s: PickerState, call: Call)
    requires
        s.wf(),
    ensures
        ({
            let (t, mv) = s.next(call);
            let before = s.bad_noisy.take(s.bad_noisy_idx as int);
            t.bad_noisy.take(t.bad_noisy_idx as int) == if t.stage == Stage::BadNoisy && mv is Some {
                before.push(mv->0)
            } else {
                before
            }
        }),
{
    lemma_next_put_off(s, call);
    let t = s.next(call).0;
    let kept = t.bad_noisy.take(s.bad_noisy.len() as int);
    assert(s.bad_noisy.take(s.bad_noisy_idx as int) =~= kept.take(s.bad_noisy_idx as int));
    assert(kept.take(s.bad_noisy_idx as int) =~= t.bad_noisy.take(s.bad_noisy_idx as int));
    if t.bad_noisy_idx > s.bad_noisy_idx {
        assert(t.bad_noisy.take(t.bad_noisy_idx as int) =~= t.bad_noisy.take(
            s.bad_noisy_idx as int,
        ).push(t.bad_noisy[s.bad_noisy_idx as int]));
    }
}

/// The moves given in the last stage are the first of those put off.
proof fn lemma_late_picks(s: PickerState, calls: Seq<Call>)
    requires
        s.wf(),
        s.bad_noisy_idx == 0,
        all_admitted(s, calls),
    ensures
        after(s, calls).wf(),
        late_picks(s, calls) == after(s, calls).bad_noisy.take(after(s, calls).bad_noisy_idx as int),
    decreases calls.len(),
{
    if calls.len() > 0 {
        let init = calls.drop_last();
        let call = calls.last();
        lemma_admitted_init(s, calls);
        lemma_late_picks(s, init);
        let mid = after(s, init);
        law_next_sound(mid, call);
        lemma_late_step(mid, call);
    } else {
        assert(late_picks(s, calls) =~= s.bad_noisy.take(0));
    }
}

/// Each move put off in a series of calls gained too little in one of them.
proof fn lemma_put_off_fell_short(s: PickerState, calls: Seq<Call>)
    requires
        s.wf(),
        s.bad_noisy.len() == 0,
        all_admitted(s, calls),
    ensures
        forall|i: int|
            0 <= i < after(s, calls).bad_noisy.len() ==> fell_short(
                s,
                calls,
                #[trigger] after(s, calls).bad_noisy[i],
            ),
    decreases calls.len(),
{
    let end = after(s, calls);
    if calls.len() > 0 {
        let init = calls.drop_last();
        let call = calls.last();
        lemma_admitted_init(s, calls);
        lemma_put_off_fell_short(s, init);
        lemma_late_picks(s, init);
        let mid = after(s, init);
        lemma_next_put_off(mid, call);
        assert forall|i: int| 0 <= i < end.bad_noisy.len() implies fell_short(
            s,
            calls,
            #[trigger] end.bad_noisy[i],
        ) by {
            if i < mid.bad_noisy.len() {
                assert(end.bad_noisy.take(mid.bad_noisy.len() as int)[i] == end.bad_noisy[i]);
                assert(fell_short(s, init, mid.bad_noisy[i]));
            }
            lemma_fell_short_extends(s, calls, end.bad_noisy[i]);
        }
    }
}

/// Over any series of calls of a new picker, what it gives in the last stage are the moves it has
/// put off, in the order in which it did so, and each move put off gained too little when one of
/// the calls came to it.
pub proof fn law_late_moves_fell_short(tt_move: Move, threshold: Option<i32>, calls: Seq<Call>)
    requires
        all_admitted(new_picker(tt_move, threshold), calls),
    ensures
        ({
            let s = new_picker(tt_move, threshold);
            let end = after(s, calls);
            let late = late_picks(s, calls);
            &&& late == end.bad_noisy.take(end.bad_noisy_idx as int)
            &&& forall|i: int|
                0 <= i < end.bad_noisy.len() ==> fell_short(s, calls, #[trigger] end.bad_noisy[i])
            &&& forall|i: int| 0 <= i < late.len() ==> fell_short(s, calls, #[trigger] late[i])
        }),
{
    let s = new_picker(tt_move, threshold);
    let end = after(s, calls);
    let late = late_picks(s, calls);
    lemma_late_picks(s, calls);
    lemma_put_off_fell_short(s, calls);
    assert forall|i: int| 0 <= i < late.len() implies fell_short(s, calls, #[trigger] late[i]) by {
        assert(late[i] == end.bad_noisy[i]);
    }
}

/// One call keeps every noisy move that was to come, or gives it, whether it skips the quiet moves
/// or not.
proof fn lemma_step_keeps_noisy(s: PickerState, call: Call, board: Board)
    requires
        s.wf(),
        s.admits(call),
        same_moves(call, board),
    ensures
        s.next(call).0.wf(),
        s.next(call).0.tt_move == s.tt_move,
        ({
            let (t, given) = s.next(call);
            let left = pending(t, board, true);
            pending(s, board, true).subset_of(
                match given {
                    None => left,
                    Some(mv) => left.insert(mv),
                },
            )
        }),
        s.next(call).1 is None ==> pending(s.next(call).0, board, true) == Multiset::<Move>::empty(),
{
    lemma_series_step(s, call, board);
    let (t, given) = s.next(call);
    if !call.skip_quiets {
        law_stages(s, call);
        law_next_sound(s, call);
        lemma_next_put_off(s, call);
        let quiets = others(board.quiet@, s.tt_move);
        if rank(t.stage) < rank(Stage::Quiet) {
            assert(pending(s, board, false) =~= pending(s, board, true).add(quiets));
            assert(pending(t, board, false) =~= pending(t, board, true).add(quiets));
            assert forall|mv: Move| #[trigger] pending(s, board, true).count(mv) <= (match given {
                None => pending(t, board, true),
                Some(m) => pending(t, board, true).insert(m),
            }).count(mv) by {
                assert(pending(s, board, false).count(mv) == pending(s, board, true).count(mv)
                    + quiets.count(mv));
                assert(pending(t, board, false).count(mv) == pending(t, board, true).count(mv)
                    + quiets.count(mv));
            }
        } else {
            lemma_noisy_left(s, call, board);
            let from = s.bad_noisy_idx as int;
            assert(pending(t, board, true) =~= t.bad_noisy.skip(t.bad_noisy_idx as int).to_multiset());
            if t.stage == Stage::BadNoisy && given is Some {
                lemma_skip_one(t.bad_noisy, from);
            }
        }
    }
}

/// When a call leaves the stage of good noisy moves behind, all noisy moves still to come have been
/// put off.
proof fn lemma_noisy_left(s: PickerState, call: Call, board: Board)
    requires
        s.wf(),
        same_moves(call, board),
        rank(s.next(call).0.stage) >= rank(Stage::Quiet),
    ensures
        pending(s, board, true) == s.next(call).0.bad_noisy.skip(s.bad_noisy_idx as int).to_multiset(),
{
    let t = s.next(call).0;
    let noisy = noisy_list(s, call);
    let later = t.bad_noisy.skip(s.bad_noisy_idx as int);
    if noisy.stage == Stage::GoodNoisy {
        law_take_good_noisy(noisy, call.td.board);
        let rest = noisy.take_good_noisy(call.td.board).0;
        law_take_quiet(rest.with_quiets(call));
        assert(t.bad_noisy == rest.bad_noisy);
        assert(later =~= rest.bad_noisy);
        assert(noisy.bad_noisy.skip(0) =~= noisy.bad_noisy);
        if s.generates_noisy(call) {
            assert(noisy.moves =~= board.noisy@);
            assert(noisy.bad_noisy.to_multiset() =~= Multiset::<Move>::empty()) by {
                broadcast use vstd::seq_lib::group_to_multiset_ensures;

            }
        }
        assert(pending(s, board, true) =~= later.to_multiset());
    } else {
        if s.stage == Stage::Quiet {
            law_take_quiet(s);
        }
        assert(pending(s, board, true) =~= later.to_multiset());
    }
}

/// Over any series of calls at one position, whichever of them skip the quiet moves, no noisy move
/// is lost: the hash move, if it is legal, and each noisy move that was to come at the start was
/// given or is still to come.
pub proof fn law_series_keeps_noisy(s: PickerState, calls: Seq<Call>, board: Board)
    requires
        s.wf(),
        at_position(calls, board),
        all_admitted(s, calls),
    ensures
        after(s, calls).wf(),
        after(s, calls).tt_move == s.tt_move,
        pending(s, board, true).subset_of(
            picks(s, calls).to_multiset().add(pending(after(s, calls), board, true)),
        ),
    decreases calls.len(),
{
    let start = pending(s, board, true);
    let end = pending(after(s, calls), board, true);
    let given = picks(s, calls).to_multiset();
    if calls.len() == 0 {
        assert(start.subset_of(given.add(end)));
    } else {
        let init = calls.drop_last();
        let call = calls[calls.len() - 1];
        lemma_series_init(s, calls, board);
        law_series_keeps_noisy(s, init, board);
        let mid = after(s, init);
        lemma_step_keeps_noisy(mid, call, board);
        if let Some(mv) = mid.next(call).1 {
            vstd::seq_lib::to_multiset_build(picks(s, init), mv);
        }
        assert forall|mv: Move| start.count(mv) <= given.add(end).count(mv) by {
            assert(start.count(mv) <= picks(s, init).to_multiset().add(
                pending(mid, board, true),
            ).count(mv));
        }
    }
}

/// When a series of calls at one position ends with no move, it has given the hash move, if it is
/// legal, and every noisy move that was to come at the start, whichever calls skipped the quiet
/// moves.
pub proof fn law_every_noisy_move_given(s: PickerState, calls: Seq<Call>, board: Board)
    requires
        s.wf(),
        at_position(calls, board),
        all_admitted(s, calls),
        calls.len() > 0,
        after(s, calls.drop_last()).next(calls.last()).1 is None,
    ensures
        pending(s, board, true).subset_of(picks(s, calls).to_multiset()),
{
    let call = calls[calls.len() - 1];
    law_series_keeps_noisy(s, calls, board);
    lemma_series_init(s, calls, board);
    law_series_keeps_noisy(s, calls.drop_last(), board);
    lemma_step_keeps_noisy(after(s, calls.drop_last()), call, board);
    let given = picks(s, calls).to_multiset();
    assert(given.add(pending(after(s, calls), board, true)) =~= given);
}

/// The score that a move has in the stage of good noisy moves or of quiet moves, with the given
/// histories and ply.
pub open spec fn score_at(stage: Stage, td: ThreadData, ply: int, mv: Move) -> int {
    if stage == Stage::Quiet {
        crate::scoring::spec_quiet_score(td, ply, mv)
    } else {
        crate::scoring::spec_noisy_score(td, mv)
    }
}

/// Whether a call generates the list of a stage.
pub open spec fn generates(s: PickerState, call: Call, stage: Stage) -> bool {
    if stage == Stage::Quiet {
        s.generates_quiet(call)
    } else {
        s.generates_noisy(call)
    }
}

/// An entry of a list that is scored has the score of its move.
proof fn lemma_listed_score(s: PickerState, td: ThreadData, ply: int, e: MoveEntry)
    requires
        s.stage == Stage::GoodNoisy || s.stage == Stage::Quiet,
        scored_by(s, td, ply),
        lists(s, e),
    ensures
        e.score == score_at(s.stage, td, ply, e.mv),
{
    let i = choose|i: int|
        0 <= i < s.moves.len() && #[trigger] s.moves[i] == e.mv && s.scores[i] == e.score;
    if s.stage == Stage::Quiet {
        assert(s.scored_quiet(td, ply).scores[i] == crate::scoring::spec_quiet_score(td, ply, e.mv) as i32);
        crate::scoring::law_quiet_score_range(td, ply, e.mv);
    } else {
        assert(s.scored_noisy(td).scores[i] == crate::scoring::spec_noisy_score(td, e.mv) as i32);
        crate::scoring::law_noisy_score_range(td, e.mv);
    }
}

/// Whether no entry of a list scores more than a move does with the given histories and ply.
spec fn none_above(s: PickerState, td: ThreadData, ply: int, mv: Move) -> bool {
    forall|e: MoveEntry| #[trigger] lists(s, e) ==> e.score <= score_at(s.stage, td, ply, mv)
}

/// The list that a call takes a move from, where it ends in the stage of that list.
proof fn lemma_source(s: PickerState, call: Call)
    requires
        s.wf(),
    ensures
        s.next(call).0.stage == Stage::GoodNoisy ==> {
            &&& s.stage == Stage::GoodNoisy || s.generates_noisy(call)
            &&& noisy_list(s, call).stage == Stage::GoodNoisy
            &&& noisy_list(s, call).take_good_noisy(call.td.board).1 is Some
        },
        s.next(call).0.stage == Stage::Quiet ==> {
            &&& s.stage == Stage::Quiet || s.generates_quiet(call)
            &&& quiet_list(s, call).stage == Stage::Quiet
            &&& quiet_list(s, call).take_quiet().1 is Some
        },
{
    let noisy = noisy_list(s, call);
    if noisy.stage == Stage::GoodNoisy {
        law_take_good_noisy(noisy, call.td.board);
        law_take_quiet(noisy.take_good_noisy(call.td.board).0.with_quiets(call));
    } else if s.stage == Stage::Quiet {
        law_take_quiet(s);
    }
}

/// A call that ends in the stage it began in, good noisy moves or quiet moves, gives an entry of
/// the list it met.
proof fn lemma_given_was_listed(s: PickerState, td: ThreadData, ply: int, call: Call)
    requires
        s.wf(),
        scored_by(s, td, ply),
        s.stage == Stage::GoodNoisy || s.stage == Stage::Quiet,
        s.next(call).0.stage == s.stage,
    ensures
        s.next(call).1 is Some,
        exists|e: MoveEntry| #[trigger]
            lists(s, e) && e.mv == s.next(call).1->0 && e.score == score_at(s.stage, td, ply, e.mv),
{
    lemma_source(s, call);
    let e = if s.stage == Stage::Quiet {
        law_take_quiet(s);
        s.take_quiet().1->0
    } else {
        law_take_good_noisy(s, call.td.board);
        s.take_good_noisy(call.td.board).1->0
    };
    lemma_listed_score(s, td, ply, e);
}

/// A call below the root that ends in the stage of good noisy moves leaves a list that is scored as
/// when it was generated, by this call or before it, and holds no entry that scores more than the
/// move given.
proof fn lemma_noisy_left_scored(s: PickerState, td: ThreadData, ply: int, call: Call)
    requires
        s.wf(),
        !call.root,
        s.next(call).0.stage == Stage::GoodNoisy,
        if s.generates_noisy(call) {
            td == call.td
        } else {
            scored_by(s, td, ply)
        },
    ensures
        s.next(call).1 is Some,
        scored_by(s.next(call).0, td, ply),
        none_above(s.next(call).0, td, ply, s.next(call).1->0),
{
    lemma_source(s, call);
    let noisy = noisy_list(s, call);
    assert(noisy == noisy.scored_noisy(td));
    law_take_good_noisy(noisy, call.td.board);
    let (rest, taken) = noisy.take_good_noisy(call.td.board);
    assert(s.next(call) == (rest, Some(taken->0.mv)));
    lemma_part_scored_noisy(noisy, rest, td);
    lemma_listed_score(noisy, td, ply, taken->0);
}

/// The same of a call that ends in the stage of quiet moves.
proof fn lemma_quiet_left_scored(s: PickerState, td: ThreadData, ply: int, call: Call)
    requires
        s.wf(),
        !call.root,
        s.next(call).0.stage == Stage::Quiet,
        if s.generates_quiet(call) {
            td == call.td && ply == call.ply
        } else {
            scored_by(s, td, ply)
        },
    ensures
        s.next(call).1 is Some,
        scored_by(s.next(call).0, td, ply),
        none_above(s.next(call).0, td, ply, s.next(call).1->0),
{
    lemma_source(s, call);
    let noisy = noisy_list(s, call);
    if noisy.stage == Stage::GoodNoisy {
        law_take_good_noisy(noisy, call.td.board);
    }
    let quiet = quiet_list(s, call);
    assert(quiet == quiet.scored_quiet(td, ply));
    law_take_quiet(quiet);
    let (rest, taken) = quiet.take_quiet();
    assert(s.next(call) == (rest, Some(taken->0.mv)));
    lemma_part_scored_quiet(quiet, rest, td, ply);
    lemma_listed_score(quiet, td, ply, taken->0);
}

/// Below the root, two calls in a row that both end in the stage of good noisy moves, or both in
/// that of quiet moves, give moves in descending order of score. The score is that of the call
/// which generated the list: the first of the two, or one made before it with `td` at `ply`. The
/// list between the two calls is scored so too, which carries the law on to the calls that follow.
pub proof fn law_two_picks_descend(
    s: PickerState,
    td: ThreadData,
    ply: int,
    stage: Stage,
    first: Call,
    second: Call,
)
    requires
        s.wf(),
        s.admits(first),
        if generates(s, first, stage) {
            td == first.td && ply == first.ply
        } else {
            scored_by(s, td, ply)
        },
        !first.root,
        stage == Stage::GoodNoisy || stage == Stage::Quiet,
        s.next(first).0.stage == stage,
        s.next(first).0.next(second).0.stage == stage,
    ensures
        ({
            let (t, a) = s.next(first);
            let b = t.next(second).1;
            &&& a is Some && b is Some
            &&& score_at(stage, td, ply, a->0) >= score_at(stage, td, ply, b->0)
            &&& scored_by(t, td, ply)
        }),
{
    let t = s.next(first).0;
    law_next_sound(s, first);
    if stage == Stage::Quiet {
        lemma_quiet_left_scored(s, td, ply, first);
    } else {
        lemma_noisy_left_scored(s, td, ply, first);
    }
    lemma_given_was_listed(t, td, ply, second);
}

/// Whether all calls of a series are made below the root.
pub open spec fn below_root(calls: Seq<Call>) -> bool {
    forall|i: int| 0 <= i < calls.len() ==> !(#[trigger] calls[i]).root
}

/// Whether moves come in descending order of the score they have with the given histories and ply.
pub open spec fn descends(moves: Seq<Move>, stage: Stage, td: ThreadData, ply: int) -> bool {
    forall|i: int, j: int|
        0 <= i < j < moves.len() ==> score_at(stage, td, ply, #[trigger] moves[i]) >= score_at(
            stage,
            td,
            ply,
            #[trigger] moves[j],
        )
}

/// A call that generates the list of a stage ends in that stage or a later one.
proof fn lemma_generated_stage(s: PickerState, call: Call, stage: Stage)
    requires
        s.wf(),
        generates(s, call, stage),
        stage == Stage::GoodNoisy || stage == Stage::Quiet,
    ensures
        rank(s.next(call).0.stage) >= rank(stage),
        rank(s.stage) < rank(stage),
{
    let noisy = noisy_list(s, call);
    law_take_good_noisy(noisy, call.td.board);
    law_take_quiet(noisy.take_good_noisy(call.td.board).0.with_quiets(call));
}

/// After a series of calls whose first generates the list of a stage, the picker is in that stage
/// or a later one.
proof fn lemma_stage_after(s: PickerState, calls: Seq<Call>, stage: Stage)
    requires
        s.wf(),
        all_admitted(s, calls),
        calls.len() > 0,
        generates(s, calls[0], stage),
        stage == Stage::GoodNoisy || stage == Stage::Quiet,
    ensures
        after(s, calls).wf(),
        rank(after(s, calls).stage) >= rank(stage),
    decreases calls.len(),
{
    let init = calls.drop_last();
    lemma_admitted_init(s, calls);
    if calls.len() > 1 {
        assert(init[0] == calls[0]);
        lemma_stage_after(s, init, stage);
        law_next_sound(after(s, init), calls.last());
    } else {
        assert(after(s, init) == s);
        lemma_generated_stage(s, calls[0], stage);
        law_next_sound(s, calls[0]);
    }
}

/// A move that scores no more than the last of a series that descends may follow.
proof fn lemma_descends_push(moves: Seq<Move>, stage: Stage, td: ThreadData, ply: int, mv: Move)
    requires
        descends(moves, stage, td, ply),
        moves.len() > 0 ==> score_at(stage, td, ply, mv) <= score_at(stage, td, ply, moves.last()),
    ensures
        descends(moves.push(mv), stage, td, ply),
{
    let all = moves.push(mv);
    assert forall|i: int, j: int| 0 <= i < j < all.len() implies score_at(
        stage,
        td,
        ply,
        #[trigger] all[i],
    ) >= score_at(stage, td, ply, #[trigger] all[j]) by {
        assert(all[i] == moves[i]);
        if j < moves.len() {
            assert(all[j] == moves[j]);
        } else {
            assert(moves[i] == moves.last() || score_at(stage, td, ply, moves[i]) >= score_at(
                stage,
                td,
                ply,
                moves[moves.len() - 1],
            ));
        }
    }
}

/// One more call of a series that stays in a stage: it gives a move that scores no more than the
/// last one given, and leaves no entry that scores more than its own.
proof fn lemma_descends_step(s: PickerState, stage: Stage, td: ThreadData, ply: int, call: Call, last: Move)
    requires
        s.wf(),
        s.stage == stage,
        stage == Stage::GoodNoisy || stage == Stage::Quiet,
        scored_by(s, td, ply),
        none_above(s, td, ply, last),
        !call.root,
        s.next(call).0.stage == stage,
    ensures
        s.next(call).1 is Some,
        score_at(stage, td, ply, s.next(call).1->0) <= score_at(stage, td, ply, last),
        scored_by(s.next(call).0, td, ply),
        none_above(s.next(call).0, td, ply, s.next(call).1->0),
{
    lemma_given_was_listed(s, td, ply, call);
    if stage == Stage::Quiet {
        lemma_quiet_left_scored(s, td, ply, call);
    } else {
        lemma_noisy_left_scored(s, td, ply, call);
    }
}

/// A series that ends in the stage whose list its first call generated was in it before its last
/// call.
proof fn lemma_stays(s: PickerState, calls: Seq<Call>, stage: Stage)
    requires
        s.wf(),
        all_admitted(s, calls),
        calls.len() > 1,
        generates(s, calls[0], stage),
        stage == Stage::GoodNoisy || stage == Stage::Quiet,
        after(s, calls).stage == stage,
    ensures
        after(s, calls.drop_last()).wf(),
        after(s, calls.drop_last()).stage == stage,
        calls.drop_last()[0] == calls[0],
        all_admitted(s, calls.drop_last()),
{
    lemma_admitted_init(s, calls);
    let init = calls.drop_last();
    assert(init[0] == calls[0]);
    lemma_stage_after(s, init, stage);
    law_next_sound(after(s, init), calls.last());
}

/// The call that generates a list and ends in its stage leaves a list that is scored, and holds no
/// entry that scores more than the move given.
proof fn lemma_descends_first(s: PickerState, stage: Stage, call: Call)
    requires
        s.wf(),
        stage == Stage::GoodNoisy || stage == Stage::Quiet,
        generates(s, call, stage),
        !call.root,
        s.next(call).0.stage == stage,
    ensures
        s.next(call).1 is Some,
        scored_by(s.next(call).0, call.td, call.ply),
        none_above(s.next(call).0, call.td, call.ply, s.next(call).1->0),
{
    if stage == Stage::Quiet {
        lemma_quiet_left_scored(s, call.td, call.ply, call);
    } else {
        lemma_noisy_left_scored(s, call.td, call.ply, call);
    }
}

/// A series of one call.
proof fn lemma_one_call(s: PickerState, calls: Seq<Call>)
    requires
        calls.len() == 1,
    ensures
        after(s, calls) == s.next(calls[0]).0,
        s.next(calls[0]).1 is Some ==> picks(s, calls) == seq![s.next(calls[0]).1->0],
{
    let init = calls.drop_last();
    assert(after(s, init) == s);
    assert(picks(s, init) == Seq::<Move>::empty());
    assert(picks(s, calls) =~= match s.next(calls[0]).1 {
        None => seq![],
        Some(mv) => seq![mv],
    });
}

/// What holds of a series of calls below the root that stays in the stage whose list its first
/// call generated.
proof fn lemma_series_descends(s: PickerState, calls: Seq<Call>, stage: Stage)
    requires
        s.wf(),
        all_admitted(s, calls),
        below_root(calls),
        calls.len() > 0,
        stage == Stage::GoodNoisy || stage == Stage::Quiet,
        generates(s, calls[0], stage),
        after(s, calls).stage == stage,
    ensures
        picks(s, calls).len() == calls.len(),
        descends(picks(s, calls), stage, calls[0].td, calls[0].ply),
        scored_by(after(s, calls), calls[0].td, calls[0].ply),
        none_above(after(s, calls), calls[0].td, calls[0].ply, picks(s, calls).last()),
    decreases calls.len(),
{
    let (td, ply) = (calls[0].td, calls[0].ply);
    if calls.len() == 1 {
        lemma_one_call(s, calls);
        lemma_descends_first(s, stage, calls[0]);
    } else {
        let init = calls.drop_last();
        let call = calls[calls.len() - 1];
        let mid = after(s, init);
        let given = picks(s, init);
        lemma_stays(s, calls, stage);
        assert(below_root(init)) by {
            assert forall|i: int| 0 <= i < init.len() implies !(#[trigger] init[i]).root by {
                assert(init[i] == calls[i]);
            }
        }
        lemma_series_descends(s, init, stage);
        lemma_descends_step(mid, stage, td, ply, call, given.last());
        lemma_descends_push(given, stage, td, ply, mid.next(call).1->0);
    }
}

/// Below the root, from the call that generates the noisy moves on, and as long as the picker
/// stays in their stage, every call gives a move, and the moves come in descending order of the
/// score they had when they were generated, whatever is learned of moves in between.
pub proof fn law_good_noisy_series_descends(s: PickerState, calls: Seq<Call>)
    requires
        s.wf(),
        all_admitted(s, calls),
        below_root(calls),
        calls.len() > 0,
        s.generates_noisy(calls[0]),
        after(s, calls).stage == Stage::GoodNoisy,
    ensures
        picks(s, calls).len() == calls.len(),
        forall|i: int, j: int|
            0 <= i < j < calls.len() ==> crate::scoring::spec_noisy_score(
                calls[0].td,
                #[trigger] picks(s, calls)[i],
            ) >= crate::scoring::spec_noisy_score(calls[0].td, #[trigger] picks(s, calls)[j]),
{
    lemma_series_descends(s, calls, Stage::GoodNoisy);
}

/// Below the root, from the call that generates the quiet moves on, and as long as the picker
/// stays in their stage, every call gives a move, and the moves come in descending order of the
/// score they had when they were generated, whatever is learned of moves in between.
pub proof fn law_quiet_series_descends(s: PickerState, calls: Seq<Call>)
    requires
        s.wf(),
        all_admitted(s, calls),
        below_root(calls),
        calls.len() > 0,
        s.generates_quiet(calls[0]),
        after(s, calls).stage == Stage::Quiet,
    ensures
        picks(s, calls).len() == calls.len(),
        forall|i: int, j: int|
            0 <= i < j < calls.len() ==> crate::scoring::spec_quiet_score(
                calls[0].td,
                calls[0].ply,
                #[trigger] picks(s, calls)[i],
            ) >= crate::scoring::spec_quiet_score(
                calls[0].td,
                calls[0].ply,
                #[trigger] picks(s, calls)[j],
            ),
{
    lemma_series_descends(s, calls, Stage::Quiet);
}

/// What a noisy move must gain: a fixed threshold, or without one `111` less a point for every
/// forty-five points of its score, which is rounded towards zero. So of two moves the one that
/// scores more never has to gain more.
pub proof fn law_required_gain(s: PickerState, score: int, higher: int)
    requires
        score <= higher,
    ensures
        s.threshold is Some ==> s.required_gain(score) == s.threshold->0,
        s.threshold is None && score >= 0 ==> 45 * (111 - s.required_gain(score)) <= score < 45 * (112
            - s.required_gain(score)),
        s.threshold is None && score <= 0 ==> 45 * (110 - s.required_gain(score)) < score <= 45 * (111
            - s.required_gain(score)),
        s.required_gain(higher) <= s.required_gain(score),
{
}

/// What is taken from a scored list and what is put off on the way, without a fixed threshold.
proof fn lemma_taken_or_put_off(s: PickerState, board: Board, td: ThreadData, ply: int)
    requires
        s.stage == Stage::GoodNoisy,
        s.scores.len() == s.moves.len(),
        !s.bad_noisy.contains(s.tt_move),
        s.threshold is None,
        scored_by(s, td, ply),
    ensures
        ({
            let (rest, taken) = s.take_good_noisy(board);
            &&& taken is Some ==> {
                let mv = taken->0.mv;
                let score = crate::scoring::spec_noisy_score(td, mv);
                let gain = board.exchange_value(mv);
                &&& mv != s.tt_move
                &&& score >= 0 ==> score >= 45 * (111 - gain)
                &&& score < 0 ==> score > 45 * (110 - gain)
            }
            &&& forall|i: int|
                s.bad_noisy.len() <= i < rest.bad_noisy.len() ==> {
                    let mv = #[trigger] rest.bad_noisy[i];
                    let score = crate::scoring::spec_noisy_score(td, mv);
                    let gain = board.exchange_value(mv);
                    &&& mv != s.tt_move
                    &&& score >= 0 ==> score < 45 * (111 - gain)
                    &&& score < 0 ==> score <= 45 * (110 - gain)
                }
        }),
{
    law_take_good_noisy(s, board);
    let (rest, taken) = s.take_good_noisy(board);
    if let Some(entry) = taken {
        lemma_listed_score(s, td, ply, entry);
        law_required_gain(s, entry.score as int, entry.score as int);
    }
    assert forall|i: int| s.bad_noisy.len() <= i < rest.bad_noisy.len() implies {
        let mv = #[trigger] rest.bad_noisy[i];
        let score = crate::scoring::spec_noisy_score(td, mv);
        let gain = board.exchange_value(mv);
        &&& mv != s.tt_move
        &&& score >= 0 ==> score < 45 * (111 - gain)
        &&& score < 0 ==> score <= 45 * (110 - gain)
    } by {
        let mv = rest.bad_noisy[i];
        assert(falls_short(s, board, mv));
        let score = choose|score: i32| #[trigger]
            lists(s, MoveEntry { mv, score }) && board.exchange_value(mv) < s.required_gain(
                score as int,
            );
        lemma_listed_score(s, td, ply, MoveEntry { mv, score });
        law_required_gain(s, score as int, score as int);
        assert(rest.bad_noisy.contains(mv));
    }
}

/// The moves that a call puts off are those put off while it takes from the list of noisy moves.
proof fn lemma_put_off_by(s: PickerState, call: Call)
    requires
        s.wf(),
    ensures
        ({
            let (t, given) = s.next(call);
            let noisy = noisy_list(s, call);
            let (rest, taken) = noisy.take_good_noisy(call.td.board);
            &&& noisy.stage == Stage::GoodNoisy ==> t.bad_noisy == rest.bad_noisy
            &&& noisy.stage != Stage::GoodNoisy ==> t.bad_noisy == s.bad_noisy && t.stage
                != Stage::GoodNoisy
            &&& t.stage == Stage::GoodNoisy ==> taken is Some && given == Some(taken->0.mv)
            &&& noisy.bad_noisy == s.bad_noisy && noisy.tt_move == s.tt_move && noisy.threshold
                == s.threshold
            &&& noisy.scores.len() == noisy.moves.len()
            &&& s.generates_noisy(call) ==> noisy == noisy.scored_noisy(call.td) && noisy.stage
                == Stage::GoodNoisy
        }),
{
    let noisy = noisy_list(s, call);
    if noisy.stage == Stage::GoodNoisy {
        law_take_good_noisy(noisy, call.td.board);
        law_take_quiet(noisy.take_good_noisy(call.td.board).0.with_quiets(call));
    } else if s.stage == Stage::Quiet {
        law_take_quiet(s);
    }
}

/// Without a fixed threshold, a noisy move whose score is not negative is tried early exactly where
/// its score is at least forty-five times what its exchange falls short of `111`; one whose score is
/// negative exactly where forty-five times what its exchange gains over `110` is more than the score
/// lacks. A call that ends in the stage of good noisy moves gives such a move, and every move that a
/// call puts off is not one. The score is that of the call which generated the list: this one, or
/// one made before it with `td`.
pub proof fn law_early_or_put_off(s: PickerState, td: ThreadData, ply: int, call: Call)
    requires
        s.wf(),
        s.threshold is None,
        if s.generates_noisy(call) {
            td == call.td
        } else {
            scored_by(s, td, ply)
        },
    ensures
        ({
            let (t, given) = s.next(call);
            let board = call.td.board;
            &&& t.stage == Stage::GoodNoisy ==> {
                let score = crate::scoring::spec_noisy_score(td, given->0);
                let gain = board.exchange_value(given->0);
                &&& given is Some && given->0 != s.tt_move
                &&& score >= 0 ==> score >= 45 * (111 - gain)
                &&& score < 0 ==> score > 45 * (110 - gain)
            }
            &&& forall|i: int|
                s.bad_noisy.len() <= i < t.bad_noisy.len() ==> {
                    let mv = #[trigger] t.bad_noisy[i];
                    let score = crate::scoring::spec_noisy_score(td, mv);
                    let gain = board.exchange_value(mv);
                    &&& mv != s.tt_move
                    &&& score >= 0 ==> score < 45 * (111 - gain)
                    &&& score < 0 ==> score <= 45 * (110 - gain)
                }
        }),
{
    let noisy = noisy_list(s, call);
    lemma_put_off_by(s, call);
    if noisy.stage == Stage::GoodNoisy {
        assert(scored_by(noisy, td, ply));
        lemma_taken_or_put_off(noisy, call.td.board, td, ply);
    }
}

/// Without a fixed threshold, a capture that loses nothing by exchange and scores `4995` or more is
/// never put off.
pub proof fn law_even_trades_come_early(s: PickerState, td: ThreadData, ply: int, call: Call, mv: Move)
    requires
        s.wf(),
        s.threshold is None,
        if s.generates_noisy(call) {
            td == call.td
        } else {
            scored_by(s, td, ply)
        },
        call.td.board.exchange_value(mv) >= 0,
        crate::scoring::spec_noisy_score(td, mv) >= 4995,
        !s.bad_noisy.contains(mv),
    ensures
        !s.next(call).0.bad_noisy.contains(mv),
{
    law_early_or_put_off(s, td, ply, call);
    lemma_next_put_off(s, call);
    let t = s.next(call).0;
    if t.bad_noisy.contains(mv) {
        let i = t.bad_noisy.index_of(mv);
        if i < s.bad_noisy.len() {
            assert(t.bad_noisy.take(s.bad_noisy.len() as int)[i] == mv);
        }
    }
}

/// Whether the moves put off descend by score, and no entry of the list scores more than one of
/// them.
spec fn orderly(s: PickerState, td: ThreadData) -> bool {
    &&& descends(s.bad_noisy, Stage::GoodNoisy, td, 0)
    &&& s.stage == Stage::GoodNoisy ==> {
        &&& s == s.scored_noisy(td)
        &&& forall|e: MoveEntry, i: int|
            #[trigger] lists(s, e) && 0 <= i < s.bad_noisy.len() ==> e.score
                <= crate::scoring::spec_noisy_score(td, #[trigger] s.bad_noisy[i])
    }
}

/// Taking a good noisy move keeps the moves put off in order.
proof fn lemma_take_orderly(s: PickerState, board: Board, td: ThreadData)
    requires
        s.stage == Stage::GoodNoisy,
        s.scores.len() == s.moves.len(),
        orderly(s, td),
    ensures
        orderly(s.take_good_noisy(board).0, td),
    decreases s.moves.len(),
{
    if s.moves.len() > 0 {
        law_best_entry(s);
        let entry = s.best_entry();
        let next = s.without_best();
        lemma_part_scored_noisy(s, next, td);
        lemma_listed_score(s, td, 0, entry);
        assert(orderly(next, td));
        if entry.mv == s.tt_move {
            lemma_take_orderly(next, board, td);
        } else if board.exchange_value(entry.mv) < s.required_gain(entry.score as int) {
            let off = next.put_off(entry.mv);
            lemma_part_scored_noisy(next, off, td);
            if s.bad_noisy.len() > 0 {
                assert(s.bad_noisy[s.bad_noisy.len() - 1] == s.bad_noisy.last());
            }
            lemma_descends_push(s.bad_noisy, Stage::GoodNoisy, td, 0, entry.mv);
            assert forall|e: MoveEntry, i: int|
                #[trigger] lists(off, e) && 0 <= i < off.bad_noisy.len() implies e.score
                <= crate::scoring::spec_noisy_score(td, #[trigger] off.bad_noisy[i]) by {
                assert(lists(next, e));
                if i < s.bad_noisy.len() {
                    assert(off.bad_noisy[i] == s.bad_noisy[i]);
                }
            }
            lemma_take_orderly(off, board, td);
        }
    }
}

/// A call below the root keeps the moves put off in order.
proof fn lemma_next_orderly(s: PickerState, td: ThreadData, call: Call)
    requires
        s.wf(),
        !call.root,
        if s.generates_noisy(call) {
            td == call.td
        } else {
            orderly(s, td)
        },
    ensures
        orderly(s.next(call).0, td),
{
    let noisy = noisy_list(s, call);
    let t = s.next(call).0;
    lemma_source(s, call);
    if noisy.stage == Stage::GoodNoisy {
        assert(orderly(noisy, td));
        law_take_good_noisy(noisy, call.td.board);
        lemma_take_orderly(noisy, call.td.board, td);
        let rest = noisy.take_good_noisy(call.td.board).0;
        law_take_quiet(rest.with_quiets(call));
        assert(t.bad_noisy == rest.bad_noisy);
        assert(t.stage == Stage::GoodNoisy ==> t == rest);
    } else {
        if s.stage == Stage::Quiet {
            law_take_quiet(s);
        }
        assert(t.bad_noisy == s.bad_noisy);
    }
}

/// Over a series of calls below the root whose first generates the noisy moves, the moves put off
/// stay in order.
proof fn lemma_series_orderly(s: PickerState, calls: Seq<Call>)
    requires
        s.wf(),
        all_admitted(s, calls),
        below_root(calls),
        calls.len() > 0,
        s.generates_noisy(calls[0]),
    ensures
        orderly(after(s, calls), calls[0].td),
    decreases calls.len(),
{
    let init = calls.drop_last();
    let call = calls[calls.len() - 1];
    lemma_admitted_init(s, calls);
    if calls.len() == 1 {
        lemma_one_call(s, calls);
        lemma_next_orderly(s, calls[0].td, calls[0]);
    } else {
        assert(init[0] == calls[0]);
        assert(below_root(init)) by {
            assert forall|i: int| 0 <= i < init.len() implies !(#[trigger] init[i]).root by {
                assert(init[i] == calls[i]);
            }
        }
        lemma_series_orderly(s, init);
        lemma_stage_after(s, init, Stage::GoodNoisy);
        lemma_next_orderly(after(s, init), calls[0].td, call);
    }
}

/// What descends still does so up to any point.
proof fn lemma_prefix_descends(moves: Seq<Move>, n: int, td: ThreadData)
    requires
        0 <= n <= moves.len(),
        descends(moves, Stage::GoodNoisy, td, 0),
    ensures
        forall|i: int, j: int|
            0 <= i < j < n ==> crate::scoring::spec_noisy_score(td, #[trigger] moves.take(n)[i])
                >= crate::scoring::spec_noisy_score(td, #[trigger] moves.take(n)[j]),
{
    assert forall|i: int, j: int| 0 <= i < j < n implies crate::scoring::spec_noisy_score(
        td,
        #[trigger] moves.take(n)[i],
    ) >= crate::scoring::spec_noisy_score(td, #[trigger] moves.take(n)[j]) by {
        assert(moves.take(n)[i] == moves[i] && moves.take(n)[j] == moves[j]);
        assert(score_at(Stage::GoodNoisy, td, 0, moves[i]) >= score_at(
            Stage::GoodNoisy,
            td,
            0,
            moves[j],
        ));
    }
}

/// Below the root, from the call that generates the noisy moves on, the moves that were put off come
/// in the last stage in descending order of the score they had when they were generated.
pub proof fn law_late_moves_descend(s: PickerState, calls: Seq<Call>)
    requires
        s.wf(),
        all_admitted(s, calls),
        below_root(calls),
        calls.len() > 0,
        s.generates_noisy(calls[0]),
    ensures
        forall|i: int, j: int|
            0 <= i < j < late_picks(s, calls).len() ==> crate::scoring::spec_noisy_score(
                calls[0].td,
                #[trigger] late_picks(s, calls)[i],
            ) >= crate::scoring::spec_noisy_score(calls[0].td, #[trigger] late_picks(s, calls)[j]),
{
    lemma_series_orderly(s, calls);
    lemma_late_picks(s, calls);
    let end = after(s, calls);
    lemma_prefix_descends(end.bad_noisy, end.bad_noisy_idx as int, calls[0].td);
}

/// Scoring a list gives each move of it the score of that move alone, and changes nothing else.
pub proof fn law_scoring_a_list(s: PickerState, td: ThreadData, ply: int, i: int)
    requires
        0 <= i < s.moves.len(),
    ensures
        s.scored_noisy(td).scores.len() == s.moves.len(),
        s.scored_noisy(td).scores[i] == crate::scoring::spec_noisy_score(td, s.moves[i]),
        s.scored_noisy(td) == (PickerState { scores: s.scored_noisy(td).scores, ..s }),
        s.scored_quiet(td, ply).scores.len() == s.moves.len(),
        s.scored_quiet(td, ply).scores[i] == crate::scoring::spec_quiet_score(td, ply, s.moves[i]),
        s.scored_quiet(td, ply) == (PickerState { scores: s.scored_quiet(td, ply).scores, ..s }),
{
    crate::scoring::law_noisy_score_range(td, s.moves[i]);
    crate::scoring::law_quiet_score_range(td, ply, s.moves[i]);
}

} // verus!
