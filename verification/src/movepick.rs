use vstd::prelude::*;

use crate::board::Board;
use crate::scoring::{noisy_score, QuietContext};
use crate::search::NodeType;
use crate::thread::ThreadData;
use crate::types::{Move, MoveEntry, MoveList, MAX_MOVES};

verus! {

/// How far a picker has come.
#[derive(Copy, Clone, Debug, PartialEq, Eq, PartialOrd, Structural)]
pub enum Stage {
    HashMove,
    GenerateNoisy,
    GoodNoisy,
    Quiet,
    BadNoisy,
}

/// The index of the highest score, the last such index where several are equal; `0` for no
/// scores.
pub open spec fn last_max(scores: Seq<i32>) -> int
    decreases scores.len(),
{
    if scores.len() <= 1 {
        0
    } else {
        let rest = last_max(scores.drop_last());
        if scores.last() >= scores[rest] {
            scores.len() - 1
        } else {
            rest
        }
    }
}

/// The last maximum is in range, no score is higher, and every later score is lower.
pub proof fn law_last_max(scores: Seq<i32>)
    requires
        scores.len() > 0,
    ensures
        0 <= last_max(scores) < scores.len(),
        forall|i: int| 0 <= i < scores.len() ==> #[trigger] scores[i] <= scores[last_max(scores)],
        forall|i: int|
            last_max(scores) < i < scores.len() ==> #[trigger] scores[i] < scores[last_max(scores)],
    decreases scores.len(),
{
    if scores.len() > 1 {
        let init = scores.drop_last();
        law_last_max(init);
        assert forall|i: int| 0 <= i < scores.len() implies #[trigger] scores[i] <= scores[last_max(
            scores,
        )] by {
            if i < scores.len() - 1 {
                assert(init[i] <= init[last_max(init)]);
            }
        }
        assert forall|i: int| last_max(scores) < i < scores.len() implies #[trigger] scores[i]
            < scores[last_max(scores)] by {
            if i < scores.len() - 1 {
                assert(init[i] == scores[i]);
            }
        }
    }
}

/// The index of the highest score, the last such index where several are equal.
pub fn best_index(scores: &[i32]) -> (best: usize)
    ensures
        best == last_max(scores@),
        scores@.len() > 0 ==> {
            &&& best < scores@.len()
            &&& forall|i: int| 0 <= i < scores@.len() ==> #[trigger] scores@[i] <= scores@[best as int]
            &&& forall|i: int| best < i < scores@.len() ==> #[trigger] scores@[i] < scores@[best as int]
        },
        scores@.len() == 0 ==> best == 0,
{
    let mut best_idx: usize = 0;
    let mut best_score: i32 = i32::MIN;
    let mut i: usize = 0;
    while i < scores.len()
        invariant
            i <= scores@.len(),
            best_idx == last_max(scores@.take(i as int)),
            i > 0 ==> best_idx < i && best_score == scores@[best_idx as int],
            i == 0 ==> best_score == i32::MIN,
        decreases scores@.len() - i,
    {
        let score: i32 = scores[i];
        assert(scores@.take(i + 1).drop_last() =~= scores@.take(i as int));
        if score >= best_score {
            best_idx = i;
            best_score = score;
        }
        i = i + 1;
    }
    assert(scores@.take(i as int) =~= scores@);
    proof {
        if scores@.len() > 0 {
            law_last_max(scores@);
        }
    }
    best_idx
}

/// Whether each score fits in twenty-four bits.
pub open spec fn small_scores(scores: Seq<i32>) -> bool {
    forall|i: int| 0 <= i < scores.len() ==> -0x80_0000 <= #[trigger] scores[i] < 0x80_0000
}

/// A score and its index in one number: the score in the high twenty-four bits, the index in the
/// low eight.
pub open spec fn packed_key(score: i32, index: i32) -> i32 {
    (score << 8) | index
}

proof fn lemma_packed_key(score: i32, index: i32)
    requires
        -0x80_0000 <= score < 0x80_0000,
        0 <= index < 256,
    ensures
        packed_key(score, index) == score * 256 + index,
        packed_key(score, index) & 0xff == index,
{
    assert((score << 8) | index == score * 256 + index) by (bit_vector)
        requires
            -0x80_0000 <= score < 0x80_0000,
            0 <= index < 256,
    ;
    assert(((score << 8) | index) & 0xff == index) by (bit_vector)
        requires
            0 <= index < 256,
    ;
}

/// Where each score fits in twenty-four bits and each index in eight, as in every picker, the best
/// index is the low byte of the greatest packed key, so a search may compare the keys alone.
pub proof fn law_best_index_by_packed_keys(scores: Seq<i32>)
    requires
        0 < scores.len() <= MAX_MOVES,
        small_scores(scores),
    ensures
        ({
            let best = last_max(scores);
            &&& packed_key(scores[best], best as i32) & 0xff == best
            &&& forall|i: int|
                0 <= i < scores.len() && i != best ==> packed_key(#[trigger] scores[i], i as i32)
                    < packed_key(scores[best], best as i32)
        }),
{
    law_last_max(scores);
    let best = last_max(scores);
    lemma_packed_key(scores[best], best as i32);
    assert forall|i: int| 0 <= i < scores.len() && i != best implies packed_key(
        #[trigger] scores[i],
        i as i32,
    ) < packed_key(scores[best], best as i32) by {
        lemma_packed_key(scores[i], i as i32);
    }
}

/// What one call for a move is made with.
pub struct Call {
    pub td: ThreadData,
    pub root: bool,
    pub skip_quiets: bool,
    pub ply: int,
}

/// The state of a picker.
#[verifier::ext_equal]
pub struct PickerState {
    /// The moves of the list, and their scores.
    pub moves: Seq<Move>,
    pub scores: Seq<i32>,
    /// The move of the transposition table.
    pub tt_move: Move,
    /// What a noisy move must gain, where that does not depend on its score.
    pub threshold: Option<i32>,
    pub stage: Stage,
    /// The noisy moves that were put off, and how many of them were given back.
    pub bad_noisy: Seq<Move>,
    pub bad_noisy_idx: nat,
}

impl PickerState {
    /// Every move has a score, which fits in twenty-four bits; the list and the moves put off keep
    /// within their bounds; before generation both are empty; moves that were put off come back
    /// only at the end, and the hash move is not among them.
    pub open spec fn wf(self) -> bool {
        &&& self.scores.len() == self.moves.len()
        &&& small_scores(self.scores)
        &&& self.moves.len() <= MAX_MOVES
        &&& self.bad_noisy.len() <= MAX_MOVES
        &&& self.bad_noisy_idx <= self.bad_noisy.len()
        &&& !self.bad_noisy.contains(self.tt_move)
        &&& self.stage != Stage::BadNoisy ==> self.bad_noisy_idx == 0
        &&& self.stage == Stage::HashMove || self.stage == Stage::GenerateNoisy ==> {
            &&& self.moves.len() == 0
            &&& self.bad_noisy.len() == 0
        }
        &&& self.stage == Stage::GoodNoisy ==> self.moves.len() + self.bad_noisy.len() <= MAX_MOVES
    }

    /// A picker that has nothing yet.
    pub open spec fn initial(tt_move: Move, threshold: Option<i32>, stage: Stage) -> PickerState {
        PickerState {
            moves: seq![],
            scores: seq![],
            tt_move,
            threshold,
            stage,
            bad_noisy: seq![],
            bad_noisy_idx: 0,
        }
    }

    /// The entry with the highest score.
    pub open spec fn best_entry(self) -> MoveEntry {
        MoveEntry {
            mv: self.moves[last_max(self.scores)],
            score: self.scores[last_max(self.scores)],
        }
    }

    /// The state without that entry.
    pub open spec fn without_best(self) -> PickerState {
        let best = last_max(self.scores);
        PickerState {
            moves: crate::types::movelist::swap_removed(self.moves, best),
            scores: crate::types::movelist::swap_removed(self.scores, best),
            ..self
        }
    }

    /// The state with a noisy move put off.
    pub open spec fn put_off(self, mv: Move) -> PickerState {
        PickerState { bad_noisy: self.bad_noisy.push(mv), ..self }
    }

    pub open spec fn at(self, stage: Stage) -> PickerState {
        PickerState { stage, ..self }
    }

    /// The state with its moves scored as noisy moves.
    pub open spec fn scored_noisy(self, td: ThreadData) -> PickerState {
        PickerState {
            scores: self.moves.map_values(
                |mv: Move| crate::scoring::spec_noisy_score(td, mv) as i32,
            ),
            ..self
        }
    }

    /// The state with its moves scored as quiet moves.
    pub open spec fn scored_quiet(self, td: ThreadData, ply: int) -> PickerState {
        PickerState {
            scores: self.moves.map_values(
                |mv: Move| crate::scoring::spec_quiet_score(td, ply, mv) as i32,
            ),
            ..self
        }
    }

    /// The state with more moves in its list.
    pub open spec fn appended(self, moves: Seq<Move>) -> PickerState {
        PickerState { moves: self.moves + moves, ..self }
    }

    /// What a noisy move with the given score must gain to be tried early.
    pub open spec fn required_gain(self, score: int) -> int {
        match self.threshold {
            Some(threshold) => threshold as int,
            None => crate::scoring::div_trunc(-score, 45) + 111,
        }
    }

    /// Takes entries off the list, best first, up to the first noisy move that gains enough. The
    /// hash move is dropped on the way, a move that gains too little is put off.
    pub open spec fn take_good_noisy(self, board: Board) -> (PickerState, Option<MoveEntry>)
        decreases self.moves.len(),
    {
        if self.moves.len() == 0 {
            (self, None)
        } else {
            let entry = self.best_entry();
            let rest = self.without_best();
            if entry.mv == self.tt_move {
                rest.take_good_noisy(board)
            } else if board.exchange_value(entry.mv) < self.required_gain(entry.score as int) {
                rest.put_off(entry.mv).take_good_noisy(board)
            } else {
                (rest, Some(entry))
            }
        }
    }

    /// Takes entries off the list, best first, up to the first that is not the hash move.
    pub open spec fn take_quiet(self) -> (PickerState, Option<MoveEntry>)
        decreases self.moves.len(),
    {
        if self.moves.len() == 0 {
            (self, None)
        } else if self.best_entry().mv == self.tt_move {
            self.without_best().take_quiet()
        } else {
            (self.without_best(), Some(self.best_entry()))
        }
    }

    /// The last stage: the moves that were put off come in the order in which they were.
    pub open spec fn next_bad_noisy(self) -> (PickerState, Option<Move>) {
        if self.bad_noisy_idx < self.bad_noisy.len() {
            (
                PickerState { bad_noisy_idx: self.bad_noisy_idx + 1, ..self },
                Some(self.bad_noisy[self.bad_noisy_idx as int]),
            )
        } else {
            (self, None)
        }
    }

    /// The stage of the quiet moves. When they are used up or not wanted, the last one follows.
    pub open spec fn next_quiet(self, call: Call) -> (PickerState, Option<Move>) {
        if call.skip_quiets {
            self.at(Stage::BadNoisy).next_bad_noisy()
        } else {
            let (rest, taken) = self.take_quiet();
            match taken {
                None => rest.at(Stage::BadNoisy).next_bad_noisy(),
                Some(entry) => if call.root {
                    (rest.scored_quiet(call.td, call.ply), Some(entry.mv))
                } else {
                    (rest, Some(entry.mv))
                },
            }
        }
    }

    /// The stage of the noisy moves that gain enough. When they are used up, the quiet moves are
    /// generated, unless they are not wanted.
    pub open spec fn next_good_noisy(self, call: Call) -> (PickerState, Option<Move>) {
        let (rest, taken) = self.take_good_noisy(call.td.board);
        match taken {
            None => if call.skip_quiets {
                rest.at(Stage::BadNoisy).next_bad_noisy()
            } else {
                rest.with_quiets(call).next_quiet(call)
            },
            Some(entry) => if call.root {
                (rest.scored_noisy(call.td), Some(entry.mv))
            } else {
                (rest, Some(entry.mv))
            },
        }
    }

    /// The state with the quiet moves of the position generated and scored.
    pub open spec fn with_quiets(self, call: Call) -> PickerState {
        self.at(Stage::Quiet).appended(call.td.board.quiet@).scored_quiet(call.td, call.ply)
    }

    /// The state with the noisy moves of the position generated and scored.
    pub open spec fn with_noisy(self, call: Call) -> PickerState {
        self.at(Stage::GoodNoisy).appended(call.td.board.noisy@).scored_noisy(call.td)
    }

    /// What one call makes of the state, and the move it gives.
    pub open spec fn next(self, call: Call) -> (PickerState, Option<Move>) {
        match self.stage {
            Stage::HashMove => if call.td.board.legal@.contains(self.tt_move) {
                (self.at(Stage::GenerateNoisy), Some(self.tt_move))
            } else {
                self.with_noisy(call).next_good_noisy(call)
            },
            Stage::GenerateNoisy => self.with_noisy(call).next_good_noisy(call),
            Stage::GoodNoisy => self.next_good_noisy(call),
            Stage::Quiet => self.next_quiet(call),
            Stage::BadNoisy => self.next_bad_noisy(),
        }
    }

    /// Whether a call generates the noisy moves.
    pub open spec fn generates_noisy(self, call: Call) -> bool {
        ||| self.stage == Stage::GenerateNoisy
        ||| self.stage == Stage::HashMove && !call.td.board.legal@.contains(self.tt_move)
    }

    /// Whether a call generates the quiet moves.
    pub open spec fn generates_quiet(self, call: Call) -> bool {
        &&& !call.skip_quiets
        &&& {
            ||| self.stage == Stage::GoodNoisy && self.take_good_noisy(call.td.board).1 is None
            ||| self.generates_noisy(call) && self.with_noisy(call).take_good_noisy(
                call.td.board,
            ).1 is None
        }
    }

    /// Whether the position fits the state: the kings are on the board, the moves that a call
    /// generates fit in the list, and the quiet moves that it scores have a piece to move.
    pub open spec fn admits(self, call: Call) -> bool {
        let board = call.td.board;
        &&& board.wf()
        &&& self.generates_noisy(call) ==> board.noisy@.len() <= MAX_MOVES
        &&& self.generates_quiet(call) ==> board.quiet@.len() <= MAX_MOVES && board.origins_occupied(
            board.quiet@,
        )
        &&& self.stage == Stage::Quiet && call.root && !call.skip_quiets && self.take_quiet().1 is Some
            ==> board.origins_occupied(self.take_quiet().0.moves)
    }
}

/// Gives out the moves of a position one by one, those that look best first.
pub struct MovePicker {
    list: MoveList,
    tt_move: Move,
    threshold: Option<i32>,
    stage: Stage,
    bad_noisy: Vec<Move>,
    bad_noisy_idx: usize,
}

/// The slots beyond the end of the list are left out: the list is scored anew before a move that
/// was put into one of them is looked at.
impl View for MovePicker {
    type V = PickerState;

    closed spec fn view(&self) -> PickerState {
        PickerState {
            moves: self.list.spec_moves(),
            scores: self.list.spec_scores(),
            tt_move: self.tt_move,
            threshold: self.threshold,
            stage: self.stage,
            bad_noisy: self.bad_noisy@,
            bad_noisy_idx: self.bad_noisy_idx as nat,
        }
    }
}

impl MovePicker {
    /// The picker's list and its state are sound.
    pub closed spec fn wf(self) -> bool {
        self.list.wf() && self@.wf()
    }

    /// A picker for all moves of a node. The move of the transposition table, if there is one,
    /// comes first.
    pub fn new(tt_move: Move) -> (picker: Self)
        ensures
            picker.wf(),
            picker@.wf(),
            picker@ == PickerState::initial(
                tt_move,
                None,
                if tt_move == Move::null() {
                    Stage::GenerateNoisy
                } else {
                    Stage::HashMove
                },
            ),
            picker@.tt_move == tt_move,
            picker@.threshold is None,
            picker@.stage == Stage::HashMove <==> tt_move != Move::null(),
            picker@.stage == Stage::GenerateNoisy <==> tt_move == Move::null(),
            picker@.moves.len() == 0 && picker@.bad_noisy.len() == 0,
    {
        MovePicker {
            list: MoveList::new(),
            tt_move,
            threshold: None,
            stage: if tt_move.is_present() {
                Stage::HashMove
            } else {
                Stage::GenerateNoisy
            },
            bad_noisy: Vec::with_capacity(MAX_MOVES),
            bad_noisy_idx: 0,
        }
    }

    /// A picker whose early noisy moves all gain at least `threshold`.
    pub fn new_probcut(threshold: i32) -> (picker: Self)
        ensures
            picker.wf(),
            picker@.wf(),
            picker@ == PickerState::initial(Move::null(), Some(threshold), Stage::GenerateNoisy),
            picker@.tt_move == Move::null(),
            picker@.threshold == Some(threshold),
            picker@.stage == Stage::GenerateNoisy,
            picker@.moves.len() == 0 && picker@.bad_noisy.len() == 0,
    {
        MovePicker {
            list: MoveList::new(),
            tt_move: Move::null(),
            threshold: Some(threshold),
            stage: Stage::GenerateNoisy,
            bad_noisy: Vec::with_capacity(MAX_MOVES),
            bad_noisy_idx: 0,
        }
    }

    /// A picker that knows of no move to try first.
    pub fn new_qsearch() -> (picker: Self)
        ensures
            picker.wf(),
            picker@.wf(),
            picker@ == PickerState::initial(Move::null(), None, Stage::GenerateNoisy),
            picker@.tt_move == Move::null(),
            picker@.threshold is None,
            picker@.stage == Stage::GenerateNoisy,
            picker@.moves.len() == 0 && picker@.bad_noisy.len() == 0,
    {
        MovePicker {
            list: MoveList::new(),
            tt_move: Move::null(),
            threshold: None,
            stage: Stage::GenerateNoisy,
            bad_noisy: Vec::with_capacity(MAX_MOVES),
            bad_noisy_idx: 0,
        }
    }

    pub fn stage(&self) -> (stage: Stage)
        ensures
            stage == self@.stage,
    {
        self.stage
    }

    /// Takes the entry with the highest score off the list.
    fn get_best_entry(&mut self) -> (entry: MoveEntry)
        requires
            old(self).list.wf(),
            old(self)@.moves.len() > 0,
        ensures
            final(self).list.wf(),
            entry == old(self)@.best_entry(),
            final(self)@ == old(self)@.without_best(),
    {
        let index: usize = best_index(self.list.scores());
        self.list.remove(index)
    }

    /// Scores the moves of the list as noisy moves.
    fn score_noisy(&mut self, td: &ThreadData)
        requires
            old(self).list.wf(),
        ensures
            final(self).list.wf(),
            final(self)@ == old(self)@.scored_noisy(*td),
            small_scores(final(self)@.scores),
    {
        let (moves, scores) = self.list.moves_and_scores_mut();
        let mut i: usize = 0;
        while i < moves.len()
            invariant
                i <= moves@.len(),
                scores@.len() == moves@.len(),
                forall|j: int|
                    0 <= j < i ==> #[trigger] scores@[j] == crate::scoring::spec_noisy_score(
                        *td,
                        moves@[j],
                    ) && -0x80_0000 <= scores@[j] < 0x80_0000,
            decreases moves@.len() - i,
        {
            scores[i] = noisy_score(td, moves[i]);
            i = i + 1;
        }
    }

    /// Scores the moves of the list as quiet moves.
    fn score_quiet(&mut self, td: &ThreadData, ply: isize)
        requires
            old(self).list.wf(),
            td.board.wf(),
            td.board.origins_occupied(old(self)@.moves),
        ensures
            final(self).list.wf(),
            final(self)@ == old(self)@.scored_quiet(*td, ply as int),
            small_scores(final(self)@.scores),
    {
        let context = QuietContext::new(td);
        let (moves, scores) = self.list.moves_and_scores_mut();
        let mut i: usize = 0;
        while i < moves.len()
            invariant
                i <= moves@.len(),
                scores@.len() == moves@.len(),
                context.is_for(*td),
                td.board.origins_occupied(moves@),
                forall|j: int|
                    0 <= j < i ==> #[trigger] scores@[j] == crate::scoring::spec_quiet_score(
                        *td,
                        ply as int,
                        moves@[j],
                    ) && -0x80_0000 <= scores@[j] < 0x80_0000,
            decreases moves@.len() - i,
        {
            scores[i] = context.score(td, ply, moves[i]);
            i = i + 1;
        }
    }

    /// Takes entries off the list, best first, up to the first noisy move that gains enough.
    fn take_good_noisy(&mut self, board: &Board) -> (taken: Option<MoveEntry>)
        requires
            old(self).wf(),
            old(self)@.stage == Stage::GoodNoisy,
        ensures
            final(self).wf(),
            final(self)@.stage == Stage::GoodNoisy,
            taken is None ==> final(self)@.moves.len() == 0,
            (final(self)@, taken) == old(self)@.take_good_noisy(*board),
    {
        while !self.list.is_empty()
            invariant
                self.wf(),
                self@.stage == Stage::GoodNoisy,
                self@.take_good_noisy(*board) == old(self)@.take_good_noisy(*board),
            decreases self@.moves.len(),
        {
            proof {
                law_last_max(self@.scores);
            }
            let entry = self.get_best_entry();
            if entry.mv == self.tt_move {
                continue;
            }
            let threshold: i32 = match self.threshold {
                Some(threshold) => threshold,
                None => -entry.score / 45 + 111,
            };
            if !board.see(entry.mv, threshold) {
                self.bad_noisy.push(entry.mv);
                continue;
            }
            return Some(entry);
        }
        None
    }

    /// Takes entries off the list, best first, up to the first that is not the hash move.
    fn take_quiet(&mut self) -> (taken: Option<MoveEntry>)
        requires
            old(self).wf(),
            old(self)@.stage == Stage::Quiet,
        ensures
            final(self).wf(),
            final(self)@.stage == Stage::Quiet,
            (final(self)@, taken) == old(self)@.take_quiet(),
            forall|i: int|
                0 <= i < final(self)@.moves.len() ==> old(self)@.moves.contains(
                    #[trigger] final(self)@.moves[i],
                ),
    {
        while !self.list.is_empty()
            invariant
                self.wf(),
                self@.stage == Stage::Quiet,
                self@.take_quiet() == old(self)@.take_quiet(),
                forall|i: int|
                    0 <= i < self@.moves.len() ==> old(self)@.moves.contains(
                        #[trigger] self@.moves[i],
                    ),
            decreases self@.moves.len(),
        {
            proof {
                law_last_max(self@.scores);
            }
            let ghost before = self@;
            let entry = self.get_best_entry();
            proof {
                assert forall|i: int| 0 <= i < self@.moves.len() implies old(self)@.moves.contains(
                    #[trigger] self@.moves[i],
                ) by {
                    assert(self@.moves[i] == before.moves[i] || self@.moves[i] == before.moves.last());
                }
            }
            if entry.mv == self.tt_move {
                continue;
            }
            return Some(entry);
        }
        None
    }

    /// The next move, or `None` when there are no more. `skip_quiets` leaves out the quiet moves
    /// that were not given yet. At the root the rest of the list is scored anew after each move.
    pub fn next<NODE: NodeType>(&mut self, td: &ThreadData, skip_quiets: bool, ply: isize) -> (res: Option<
        Move,
    >)
        requires
            old(self).wf(),
            old(self)@.admits(
                (Call { td: *td, root: NODE::ROOT, skip_quiets, ply: ply as int }),
            ),
        ensures
            final(self).wf(),
            final(self)@.wf(),
            (final(self)@, res) == old(self)@.next(
                (Call { td: *td, root: NODE::ROOT, skip_quiets, ply: ply as int }),
            ),
    {
        if self.stage == Stage::HashMove {
            self.stage = Stage::GenerateNoisy;
            if td.board.is_legal(self.tt_move) {
                return Some(self.tt_move);
            }
        }
        if self.stage == Stage::GenerateNoisy {
            self.stage = Stage::GoodNoisy;
            td.board.append_noisy_moves(&mut self.list);
            self.score_noisy(td);
        }
        if self.stage == Stage::GoodNoisy {
            if let Some(entry) = self.take_good_noisy(&td.board) {
                if NODE::ROOT {
                    self.score_noisy(td);
                }
                return Some(entry.mv);
            }
            if skip_quiets {
                self.stage = Stage::BadNoisy;
            } else {
                self.stage = Stage::Quiet;
                td.board.append_quiet_moves(&mut self.list);
                self.score_quiet(td, ply);
            }
        }
        if self.stage == Stage::Quiet {
            if !skip_quiets {
                if let Some(entry) = self.take_quiet() {
                    if NODE::ROOT {
                        self.score_quiet(td, ply);
                    }
                    return Some(entry.mv);
                }
            }
            self.stage = Stage::BadNoisy;
        }
        if self.bad_noisy_idx < self.bad_noisy.len() {
            let mv = self.bad_noisy[self.bad_noisy_idx];
            self.bad_noisy_idx = self.bad_noisy_idx + 1;
            return Some(mv);
        }
        None
    }
}

} // verus!
