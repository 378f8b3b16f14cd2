//! A game in progress: the difficulty, the mode of play and the helper that
//! suggests a move.

use rand::Rng;
use vstd::prelude::*;
use crate::board::Board;
use crate::cell::MapElement;
use crate::cell::MapElementCellState;
use crate::model::BoardState;
use crate::model::BoardView;
use crate::moves::MoveError;
use crate::point::lemma_neighbours_on_grid;
use crate::point::touching_offsets;
use crate::point::Point;
use crate::setup::create_board;
use crate::setup::laid_out_by;
use crate::setup::lemma_placed_on_grid;
use crate::setup::MAX_DRAWS;
use crate::setup::numbers_on_board;
use crate::setup::placed;

verus! {

/// What a touch on a cell does.
#[derive(Debug, PartialEq, Eq, Clone, Copy, Structural)]
pub enum Mode {
    Flagging,
    Digging,
}

/// The size of the game.
#[derive(Debug, PartialEq, Eq, Clone, Copy, Structural)]
pub enum Difficulty {
    Easy,
    Medium,
    Hard,
}

impl Mode {
    /// The mode after the player asks for the other one: the modes swap
    /// while the game is on, and stay once it has ended.
    pub open spec fn toggled(self, state: BoardState) -> Mode {
        if state == BoardState::Won || state == BoardState::Failed {
            self
        } else {
            match self {
                Mode::Digging => Mode::Flagging,
                Mode::Flagging => Mode::Digging,
            }
        }
    }

    /// The mode after the player asks for the other one.
    pub fn toggle(self, state: BoardState) -> (r: Mode)
        ensures
            r == self.toggled(state),
    {
        match state {
            BoardState::Won | BoardState::Failed => self,
            _ => match self {
                Mode::Digging => Mode::Flagging,
                Mode::Flagging => Mode::Digging,
            },
        }
    }
}

impl Difficulty {
    /// The number of columns.
    pub open spec fn columns(self) -> int {
        match self {
            Difficulty::Easy => 10,
            Difficulty::Medium => 16,
            Difficulty::Hard => 16,
        }
    }

    /// The number of rows.
    pub open spec fn rows(self) -> int {
        match self {
            Difficulty::Easy => 10,
            Difficulty::Medium => 16,
            Difficulty::Hard => 30,
        }
    }

    /// The number of mines.
    pub open spec fn charge(self) -> int {
        match self {
            Difficulty::Easy => 10,
            Difficulty::Medium => 40,
            Difficulty::Hard => 99,
        }
    }

    /// The difficulty of the game that starts when the player asks for a
    /// change: the next one, in a circle, if the board has not been touched,
    /// and the same again once play has begun.
    pub open spec fn toggled(self, state: BoardState) -> Difficulty {
        if state == BoardState::Ready {
            match self {
                Difficulty::Easy => Difficulty::Medium,
                Difficulty::Medium => Difficulty::Hard,
                Difficulty::Hard => Difficulty::Easy,
            }
        } else {
            self
        }
    }

    /// The number of columns.
    pub fn width(self) -> (r: usize)
        ensures
            r == self.columns(),
    {
        match self {
            Difficulty::Easy => 10,
            Difficulty::Medium => 16,
            Difficulty::Hard => 16,
        }
    }

    /// The number of rows.
    pub fn height(self) -> (r: usize)
        ensures
            r == self.rows(),
    {
        match self {
            Difficulty::Easy => 10,
            Difficulty::Medium => 16,
            Difficulty::Hard => 30,
        }
    }

    /// The number of mines.
    pub fn mines(self) -> (r: usize)
        ensures
            r == self.charge(),
    {
        match self {
            Difficulty::Easy => 10,
            Difficulty::Medium => 40,
            Difficulty::Hard => 99,
        }
    }

    /// The difficulty of the game that starts when the player asks for a
    /// change.
    pub fn toggle(self, state: BoardState) -> (r: Difficulty)
        ensures
            r == self.toggled(state),
    {
        match state {
            BoardState::Ready => match self {
                Difficulty::Easy => Difficulty::Medium,
                Difficulty::Medium => Difficulty::Hard,
                Difficulty::Hard => Difficulty::Easy,
            },
            _ => self,
        }
    }
}

/// A number drawn by chance from `low` up to, and not including, `high`.
///
/// Trusted: the body calls `rand::Rng::gen_range` on `rand::thread_rng()`,
/// and the contract states what that function documents, that the number
/// lies in the range; the function panics on an empty range, which the
/// precondition leaves out. Which number comes is left open.
#[verifier::external_body]
fn random_between(low: usize, high: usize) -> (r: usize)
    requires
        low < high,
    ensures
        low <= r < high,
{
    rand::thread_rng().gen_range(low, high)
}

impl BoardView {
    /// The board of a game of the given difficulty that has not begun: it
    /// has the size of the difficulty and no more mines than it asks for,
    /// no cell is opened or flagged, the counts are derived, and every
    /// number is still missing.
    pub open spec fn is_new_game(self, difficulty: Difficulty) -> bool {
        &&& self.wf()
        &&& self.width == difficulty.columns()
        &&& self.height == difficulty.rows()
        &&& self.mines <= difficulty.charge()
        &&& self.state == BoardState::Ready
        &&& self.untouched()
        &&& self.counts_derived()
        &&& self.missing_points == self.width * self.height - self.mines
        &&& self.missing_points == self.unopened_numbers()
    }

    /// The board is the new game of the given difficulty that comes of the
    /// candidates `draws`, each an answer of `rand`, with its counts
    /// derived.
    pub open spec fn dealt_by<F: FnMut(usize, usize) -> usize>(
        self,
        difficulty: Difficulty,
        rand: F,
        draws: Seq<(usize, usize)>,
    ) -> bool {
        let blank = BoardView::fresh(
            difficulty.columns(),
            difficulty.rows(),
            placed(draws, difficulty.charge()),
        );
        &&& laid_out_by(
            blank,
            difficulty.columns() as usize,
            difficulty.rows() as usize,
            difficulty.charge() as usize,
            rand,
            draws,
        )
        &&& self == blank.with_counts()
    }

    /// The board is the new game of the given difficulty that comes of the
    /// candidates `draws`, all of which lie on the board, with its counts
    /// derived: it has a mine for every candidate that was placed, and the
    /// candidates ran until all the mines were placed or [`MAX_DRAWS`] were
    /// drawn.
    pub open spec fn dealt(self, difficulty: Difficulty, draws: Seq<(usize, usize)>) -> bool {
        let mines = placed(draws, difficulty.charge());
        &&& self == BoardView::fresh(difficulty.columns(), difficulty.rows(), mines).with_counts()
        &&& forall|i: int|
            0 <= i < draws.len() ==> (#[trigger] draws[i]).0 < difficulty.columns() && draws[i].1
                < difficulty.rows()
        &&& self.mines == mines.len()
        &&& self.mines == difficulty.charge() || draws.len() == MAX_DRAWS
    }

    /// The board is a new game of the given difficulty with its mines drawn
    /// within the board.
    pub open spec fn is_dealt(self, difficulty: Difficulty) -> bool {
        &&& self.is_new_game(difficulty)
        &&& exists|draws: Seq<(usize, usize)>| self.dealt(difficulty, draws)
    }
}

/// A board of the given difficulty, ready to be played, with its mines
/// where `rand` says; see [`create_board`].
pub fn new_game_with(difficulty: Difficulty, rand: impl FnMut(usize, usize) -> usize) -> (board:
    Board)
    requires
        difficulty.charge() > 0 ==> call_requires(rand, (0usize, difficulty.columns() as usize)),
        difficulty.charge() > 0 ==> call_requires(rand, (0usize, difficulty.rows() as usize)),
    ensures
        board@.is_new_game(difficulty),
        board.counter_has_room(),
        exists|draws: Seq<(usize, usize)>| board@.dealt_by(difficulty, rand, draws),
{
    let width = difficulty.width();
    let height = difficulty.height();
    let mines = difficulty.mines();
    assert(width * height <= 480 && mines <= width * height) by (nonlinear_arith)
        requires
            width == difficulty.columns(),
            height == difficulty.rows(),
            mines == difficulty.charge(),
    ;
    let blank = create_board(width, height, mines, rand);
    let board = numbers_on_board(blank);
    proof {
        blank@.lemma_with_counts();
        let draws = choose|draws: Seq<(usize, usize)>|
            laid_out_by(blank@, width, height, mines, rand, draws);
        assert(board@.dealt_by(difficulty, rand, draws));
        assert(board@.untouched()) by {
            assert forall|x: int, y: int| 0 <= x < board@.width && 0 <= y < board@.height implies (
            #[trigger] board@.grid[y][x]).state() == MapElementCellState::Closed by {
                assert(blank@.grid[y][x].state() == MapElementCellState::Closed);
            }
        }
    }
    board
}

/// A board of the given difficulty, ready to be played, with its mines
/// placed by chance.
pub fn new_game(difficulty: Difficulty) -> (board: Board)
    ensures
        board@.is_dealt(difficulty),
        board.counter_has_room(),
{
    let board = new_game_with(difficulty, random_between);
    proof {
        let draws = choose|draws: Seq<(usize, usize)>|
            board@.dealt_by(difficulty, random_between, draws);
        let width = difficulty.columns();
        let height = difficulty.rows();
        let mines = difficulty.charge();
        assert forall|i: int| 0 <= i < draws.len() implies (#[trigger] draws[i]).0 < width
            && draws[i].1 < height by {
            assert(call_ensures(random_between, (0usize, width as usize), draws[i].0));
            assert(call_ensures(random_between, (0usize, height as usize), draws[i].1));
        }
        lemma_placed_on_grid(draws, mines, width, height);
        assert(board@.dealt(difficulty, draws));
    }
    board
}

/// A new easy game: ten by ten with ten mines.
pub fn small_board() -> (board: Board)
    ensures
        board@.is_dealt(Difficulty::Easy),
        board.counter_has_room(),
{
    new_game(Difficulty::Easy)
}

/// A new game of medium difficulty: sixteen by sixteen with forty mines.
pub fn medium_board() -> (board: Board)
    ensures
        board@.is_dealt(Difficulty::Medium),
        board.counter_has_room(),
{
    new_game(Difficulty::Medium)
}

/// A new hard game: sixteen columns by thirty rows with ninety-nine mines.
pub fn large_board() -> (board: Board)
    ensures
        board@.is_dealt(Difficulty::Hard),
        board.counter_has_room(),
{
    new_game(Difficulty::Hard)
}

/// What the player asks for.
#[derive(Debug, PartialEq, Eq, Clone, Copy, Structural)]
pub enum Msg {
    ToggleDifficulty,
    ToggleMode,
    UpdateBoard { point: Point },
    RunRobot,
}

/// A game with its settings.
#[derive(Debug, PartialEq, Clone)]
pub struct State {
    pub difficulty: Difficulty,
    pub mode: Mode,
    pub board: Board,
}

/// A game with its settings as a mathematical value.
pub ghost struct StateView {
    pub difficulty: Difficulty,
    pub mode: Mode,
    pub board: BoardView,
}

impl View for State {
    type V = StateView;

    open spec fn view(&self) -> StateView {
        StateView { difficulty: self.difficulty, mode: self.mode, board: self.board@ }
    }
}

impl StateView {
    /// The game after the player changes the mode.
    pub open spec fn mode_toggled(self) -> StateView {
        StateView { mode: self.mode.toggled(self.board.state), ..self }
    }

    /// The game after the player touches the cell at `p`.
    pub open spec fn touched(self, p: Point) -> StateView {
        StateView { board: self.board.played(self.mode, p), ..self }
    }

    /// The game after the helper has made the move that it suggests, if it
    /// suggests one.
    pub open spec fn helped(self) -> StateView {
        match self.board.hint() {
            Some((mode, target)) => StateView { board: self.board.played(mode, target), ..self },
            None => self,
        }
    }

    /// What asking for another difficulty leaves of the game: the mode
    /// stays, the difficulty is the next one if play has not begun, and the
    /// board is a new game of that difficulty.
    pub open spec fn restarted_from(self, before: StateView) -> bool {
        &&& self.mode == before.mode
        &&& self.difficulty == before.difficulty.toggled(before.board.state)
        &&& self.board.is_dealt(self.difficulty)
    }

    /// The game follows from `before` by what the player asked for. All but
    /// a change of difficulty, which lays out a board by chance, settle the
    /// game that follows.
    pub open spec fn follows(self, before: StateView, msg: Msg) -> bool {
        match msg {
            Msg::ToggleDifficulty => self.restarted_from(before),
            Msg::ToggleMode => self == before.mode_toggled(),
            Msg::UpdateBoard { point } => self == before.touched(point),
            Msg::RunRobot => self == before.helped(),
        }
    }
}

impl State {
    /// The board satisfies its invariant and has room in its counter for
    /// every move. A game that this library has started does, and every
    /// move keeps it so.
    pub open spec fn wf(&self) -> bool {
        self.board.wf() && self.board.counter_has_room()
    }

    /// What the player asks for opens a closed number, which takes from the
    /// counter.
    pub open spec fn opens_a_number(&self, msg: Msg) -> bool {
        match msg {
            Msg::UpdateBoard { point } => self.mode == Mode::Digging && self@.board.cell(
                point,
            ).is_closed_number(),
            Msg::RunRobot => self@.board.hint() matches Some((mode, target)) && mode
                == Mode::Digging && self@.board.cell(target).is_closed_number(),
            _ => false,
        }
    }

    /// Whether the game can take what the player asks for. A change of
    /// difficulty or of mode it always can. For a touch or the helper the
    /// board must satisfy its invariant, a touch must name a cell of the
    /// board, and the counter must have room where a number is opened.
    pub open spec fn accepts(&self, msg: Msg) -> bool {
        msg is UpdateBoard || msg is RunRobot ==> {
            &&& self.board.wf()
            &&& msg matches Msg::UpdateBoard { point } ==> self@.board.in_bounds(point)
            &&& self.opens_a_number(msg) ==> self.board.counter_has_room()
        }
    }

    /// An easy game in digging mode.
    pub fn new() -> (state: State)
        ensures
            state.difficulty == Difficulty::Easy,
            state.mode == Mode::Digging,
            state@.board.is_dealt(Difficulty::Easy),
            state.wf(),
    {
        State { difficulty: Difficulty::Easy, mode: Mode::Digging, board: small_board() }
    }

    /// Starts a new game: of the next difficulty if the board has not been
    /// touched, of the same difficulty again once play has begun.
    pub fn toggle_difficulty(&mut self)
        ensures
            final(self)@.restarted_from(old(self)@),
            final(self).wf(),
    {
        let difficulty = self.difficulty.toggle(self.board.state);
        let board = match difficulty {
            Difficulty::Easy => small_board(),
            Difficulty::Medium => medium_board(),
            Difficulty::Hard => large_board(),
        };
        self.difficulty = difficulty;
        self.board = board;
    }

    /// Changes between digging and flagging, unless the game has ended.
    pub fn toggle_mode(&mut self)
        ensures
            final(self)@ == old(self)@.mode_toggled(),
    {
        self.mode = self.mode.toggle(self.board.state);
    }

    /// Touches the cell at `p` in the mode of the game.
    pub fn update_board(&mut self, p: Point)
        requires
            old(self).accepts(Msg::UpdateBoard { point: p }),
        ensures
            final(self)@ == old(self)@.touched(p),
            final(self).board.wf(),
            old(self).wf() ==> final(self).wf(),
            final(self)@.board.same_layout(old(self)@.board),
    {
        let board = self.board.play(self.mode, &p);
        self.board = board;
    }

    /// Lets the helper make the move that it suggests, if it suggests one.
    pub fn run_robot(&mut self)
        requires
            old(self).accepts(Msg::RunRobot),
        ensures
            final(self)@ == old(self)@.helped(),
            final(self).board.wf(),
            old(self).wf() ==> final(self).wf(),
            final(self)@.board.same_layout(old(self)@.board),
    {
        match self.board.robot_hint() {
            Some((mode, target)) => {
                let board = self.board.play(mode, &target);
                self.board = board;
            },
            None => {},
        }
    }

    /// Does what the player asks for.
    pub fn update(&mut self, msg: Msg)
        requires
            old(self).accepts(msg),
        ensures
            final(self)@.follows(old(self)@, msg),
            old(self).wf() ==> final(self).wf(),
    {
        match msg {
            Msg::ToggleDifficulty => self.toggle_difficulty(),
            Msg::ToggleMode => self.toggle_mode(),
            Msg::UpdateBoard { point } => self.update_board(point),
            Msg::RunRobot => self.run_robot(),
        }
    }

    /// [`State::update`] for a caller that cannot vouch for the game or the
    /// point: what is asked for is done where it can be, and refused with
    /// the reason, the game left as it is, where it cannot. A change of
    /// difficulty or of mode is never refused.
    pub fn try_update(&mut self, msg: Msg) -> (r: Result<(), MoveError>)
        ensures
            r is Ok ==> final(self)@.follows(old(self)@, msg),
            r is Err ==> *final(self) == *old(self),
            r is Ok <==> old(self).accepts(msg),
            r == Err::<(), MoveError>(MoveError::MalformedBoard) <==> (msg is UpdateBoard
                || msg is RunRobot) && !old(self).board.wf(),
            r == Err::<(), MoveError>(MoveError::InvalidPoint) <==> old(self).board.wf() && (
            msg matches Msg::UpdateBoard { point } && !old(self)@.board.in_bounds(point)),
            r == Err::<(), MoveError>(MoveError::CounterUnderflow) <==> old(self).board.wf() && old(
                self,
            ).opens_a_number(msg) && (msg matches Msg::UpdateBoard { point } ==> old(
                self,
            )@.board.in_bounds(point)) && !old(self).board.counter_has_room(),
    {
        match msg {
            Msg::ToggleDifficulty => {
                self.toggle_difficulty();
                return Ok(());
            },
            Msg::ToggleMode => {
                self.toggle_mode();
                return Ok(());
            },
            _ => {},
        }
        if !self.board.is_well_formed() {
            return Err(MoveError::MalformedBoard);
        }
        let touched = match msg {
            Msg::UpdateBoard { point } => Some((self.mode, point)),
            _ => self.board.robot_hint(),
        };
        match touched {
            Some((mode, target)) => {
                let opens = match (mode, self.board.at(&target)) {
                    (_, None) => {
                        return Err(MoveError::InvalidPoint);
                    },
                    (
                        Mode::Digging,
                        Some(MapElement::Number { state: MapElementCellState::Closed, .. }),
                    ) => true,
                    _ => false,
                };
                if opens && !self.board.has_counter_room() {
                    return Err(MoveError::CounterUnderflow);
                }
            },
            None => {},
        }
        self.update(msg);
        Ok(())
    }
}

impl Board {
    /// The board after the player touches the cell at `p`: in digging mode
    /// the cell is opened, and the board stays as it is where that is no
    /// move; in flagging mode the flag of the cell is toggled.
    pub fn play(&self, mode: Mode, p: &Point) -> (r: Board)
        requires
            self.wf(),
            self@.in_bounds(*p),
            mode == Mode::Digging && self@.cell(*p).is_closed_number() ==> self.counter_has_room(),
        ensures
            r@ == self@.played(mode, *p),
            r.wf(),
            r@.same_layout(self@),
            self.counter_has_room() ==> r.counter_has_room(),
    {
        match mode {
            Mode::Digging => match self.cascade_open_item(p) {
                Some(board) => board,
                None => self.duplicate(),
            },
            Mode::Flagging => self.flag_item(p),
        }
    }

    /// [`Board::play`] for a caller that cannot vouch for the board or the
    /// point: the move is made where it can be, and refused with the reason
    /// where it cannot.
    pub fn try_play(&self, mode: Mode, p: &Point) -> (r: Result<Board, MoveError>)
        ensures
            r matches Ok(board) ==> board@ == self@.played(mode, *p) && board.wf(),
            r is Ok <==> self.wf() && self@.in_bounds(*p) && (mode == Mode::Digging && self@.cell(
                *p,
            ).is_closed_number() ==> self.counter_has_room()),
            r == Err::<Board, MoveError>(MoveError::MalformedBoard) <==> !self.wf(),
            r == Err::<Board, MoveError>(MoveError::InvalidPoint) <==> self.wf()
                && !self@.in_bounds(*p),
            r == Err::<Board, MoveError>(MoveError::CounterUnderflow) <==> self.wf()
                && self@.in_bounds(*p) && mode == Mode::Digging && self@.cell(
                *p,
            ).is_closed_number() && !self.counter_has_room(),
    {
        if !self.is_well_formed() {
            return Err(MoveError::MalformedBoard);
        }
        let opens = match (mode, self.at(p)) {
            (_, None) => {
                return Err(MoveError::InvalidPoint);
            },
            (Mode::Digging, Some(MapElement::Number { state: MapElementCellState::Closed, .. })) => true,
            _ => false,
        };
        if opens && !self.has_counter_room() {
            return Err(MoveError::CounterUnderflow);
        }
        Ok(self.play(mode, p))
    }
}

impl BoardView {
    /// The board after a touch on the cell at `p` in the given mode.
    pub open spec fn played(self, mode: Mode, p: Point) -> BoardView {
        match mode {
            Mode::Digging => match self.cascade_open(p) {
                Some(board) => board,
                None => self,
            },
            Mode::Flagging => self.flag(p),
        }
    }
}

/// Which neighbours the helper looks for.
#[derive(Debug, PartialEq, Eq, Clone, Copy, Structural)]
pub enum Sought {
    /// Cells that are not open numbers.
    Unopened,
    /// Cells that carry a flag.
    Flagged,
    /// Cells that are not open numbers and carry no flag.
    Untouched,
}

impl Sought {
    /// Whether `el` is a cell that is looked for.
    pub open spec fn matches(self, el: MapElement) -> bool {
        let unopened = !(el is Number && el.state() == MapElementCellState::Open);
        let flagged = el.state() == MapElementCellState::Flagged;
        match self {
            Sought::Unopened => unopened,
            Sought::Flagged => flagged,
            Sought::Untouched => unopened && !flagged,
        }
    }

    /// Whether `el` is a cell that is looked for.
    pub fn is_match(self, el: &MapElement) -> (r: bool)
        ensures
            r == self.matches(*el),
    {
        let unopened = match el {
            MapElement::Number { state: MapElementCellState::Open, .. } => false,
            _ => true,
        };
        let flagged = match el {
            MapElement::Mine { state: MapElementCellState::Flagged } => true,
            MapElement::Number { state: MapElementCellState::Flagged, .. } => true,
            _ => false,
        };
        match self {
            Sought::Unopened => unopened,
            Sought::Flagged => flagged,
            Sought::Untouched => unopened && !flagged,
        }
    }
}

impl BoardView {
    /// How many of `points` hold a cell that is looked for.
    pub open spec fn count_sought(self, points: Seq<Point>, sought: Sought) -> int
        decreases points.len(),
    {
        if points.len() == 0 {
            0
        } else {
            self.count_sought(points.drop_last(), sought) + if sought.matches(
                self.cell(points.last()),
            ) {
                1int
            } else {
                0int
            }
        }
    }

    /// The first of `points` that holds a cell that is looked for.
    pub open spec fn first_sought(self, points: Seq<Point>, sought: Sought) -> Option<Point>
        decreases points.len(),
    {
        if points.len() == 0 {
            None
        } else {
            match self.first_sought(points.drop_last(), sought) {
                Some(p) => Some(p),
                None => if sought.matches(self.cell(points.last())) {
                    Some(points.last())
                } else {
                    None
                },
            }
        }
    }

    /// The move that the open number at `p` gives away, if it gives one
    /// away. Among the cells that touch it, those that are not open numbers
    /// are the unopened ones. If the number shows as many mines as there are
    /// unopened cells, and not all of them are flagged, the first without a
    /// flag is to be flagged. Failing that, if it shows as many mines as
    /// there are flags, the first unopened cell without a flag is to be
    /// opened.
    pub open spec fn hint_at(self, p: Point) -> Option<(Mode, Point)> {
        match self.cell(p) {
            MapElement::Number { state: MapElementCellState::Open, count } => {
                let around = self.touching_points(p);
                let unopened = self.count_sought(around, Sought::Unopened);
                let flagged = self.count_sought(around, Sought::Flagged);
                let target = self.first_sought(around, Sought::Untouched);
                if count <= 0 || target is None {
                    None
                } else if count == unopened && flagged < unopened {
                    Some((Mode::Flagging, target.unwrap()))
                } else if count == flagged && unopened - flagged > 0 {
                    Some((Mode::Digging, target.unwrap()))
                } else {
                    None
                }
            },
            _ => None,
        }
    }

    /// The first move that a cell gives away, looking from the cell in
    /// column `x`, row `y` down its column and then through the columns to
    /// the right of it.
    pub open spec fn hint_from(self, x: int, y: int) -> Option<(Mode, Point)>
        decreases self.width - x, self.height - y,
    {
        if x >= self.width || x < 0 || y < 0 {
            None
        } else if y >= self.height {
            self.hint_from(x + 1, 0)
        } else {
            match self.hint_at(Point::at(x, y)) {
                Some(hint) => Some(hint),
                None => self.hint_from(x, y + 1),
            }
        }
    }

    /// The move that the helper suggests: none once the game has ended, else
    /// the first that a cell gives away, looking through the columns from
    /// the left and down each column.
    pub open spec fn hint(self) -> Option<(Mode, Point)> {
        if self.state == BoardState::Won || self.state == BoardState::Failed {
            None
        } else {
            self.hint_from(0, 0)
        }
    }

    /// Among cells of the board, no more are flagged than are unopened, and
    /// a cell without a flag is found exactly if there are fewer.
    pub proof fn lemma_sought(self, points: Seq<Point>)
        ensures
            0 <= self.count_sought(points, Sought::Flagged) <= self.count_sought(
                points,
                Sought::Unopened,
            ) <= points.len(),
            self.first_sought(points, Sought::Untouched) is Some <==> self.count_sought(
                points,
                Sought::Flagged,
            ) < self.count_sought(points, Sought::Unopened),
            self.first_sought(points, Sought::Untouched) matches Some(p) ==> points.contains(p)
                && Sought::Untouched.matches(self.cell(p)),
        decreases points.len(),
    {
        if points.len() > 0 {
            let rest = points.drop_last();
            self.lemma_sought(rest);
            match self.first_sought(rest, Sought::Untouched) {
                Some(p) => {
                    let i = choose|i: int| 0 <= i < rest.len() && rest[i] == p;
                    assert(points[i] == p);
                },
                None => {
                    assert(points[points.len() - 1] == points.last());
                },
            }
        }
    }
}

impl Board {
    /// The move that the open number at `p` gives away, if any.
    fn hint_for(&self, p: &Point) -> (r: Option<(Mode, Point)>)
        requires
            self.wf(),
            self@.in_bounds(*p),
        ensures
            r == self@.hint_at(*p),
            r matches Some((_, target)) ==> self@.in_bounds(target),
    {
        let count = match self.at(p) {
            Some(MapElement::Number { state: MapElementCellState::Open, count }) => *count,
            _ => {
                return None;
            },
        };
        let around = self.surrounding_points(p);
        proof {
            self@.lemma_sides();
            lemma_neighbours_on_grid(self@.width, self@.height, *p, touching_offsets());
            self@.lemma_sought(around@);
        }
        let mut unopened: i32 = 0;
        let mut flagged: i32 = 0;
        let mut target: Option<Point> = None;
        let mut i: usize = 0;
        while i < around.len()
            invariant
                self.wf(),
                i <= around.len(),
                around.len() <= 8,
                forall|j: int| 0 <= j < around.len() ==> self@.in_bounds(#[trigger] around[j]),
                unopened == self@.count_sought(around@.take(i as int), Sought::Unopened),
                flagged == self@.count_sought(around@.take(i as int), Sought::Flagged),
                target == self@.first_sought(around@.take(i as int), Sought::Untouched),
                0 <= flagged <= i,
                0 <= unopened <= i,
            decreases around.len() - i,
        {
            assert(around@.take(i + 1).drop_last() == around@.take(i as int));
            assert(self@.in_bounds(around[i as int]));
            let el = self.at(&around[i]).unwrap();
            if Sought::Unopened.is_match(el) {
                unopened += 1;
            }
            if Sought::Flagged.is_match(el) {
                flagged += 1;
            }
            if target.is_none() && Sought::Untouched.is_match(el) {
                target = Some(around[i]);
            }
            i += 1;
        }
        assert(around@.take(i as int) == around@);
        match target {
            None => None,
            Some(t) => {
                if count <= 0 {
                    None
                } else if count == unopened && flagged < unopened {
                    Some((Mode::Flagging, t))
                } else if count == flagged && unopened - flagged > 0 {
                    Some((Mode::Digging, t))
                } else {
                    None
                }
            },
        }
    }

    /// The move that the helper suggests, if it sees one: a cell to flag
    /// because an open number shows that it hides a mine, or a cell to open
    /// because an open number shows that it hides none. The helper goes by
    /// the cells that touch a number, whatever adjacency the counts were
    /// derived by.
    pub fn robot_hint(&self) -> (r: Option<(Mode, Point)>)
        requires
            self.wf(),
        ensures
            r == self@.hint(),
            r matches Some((_, target)) ==> self@.in_bounds(target),
    {
        match self.state {
            BoardState::Won | BoardState::Failed => {
                return None;
            },
            _ => {},
        }
        proof {
            self@.lemma_sides();
        }
        let mut x: usize = 0;
        while x < self.width
            invariant
                self.wf(),
                self.width <= i32::MAX,
                self.height <= i32::MAX,
                x <= self.width,
                self@.hint() == self@.hint_from(0, 0),
                self@.hint_from(0, 0) == self@.hint_from(x as int, 0),
            decreases self.width - x,
        {
            let mut y: usize = 0;
            while y < self.height
                invariant
                    self.wf(),
                    self.width <= i32::MAX,
                    self.height <= i32::MAX,
                    x < self.width,
                    y <= self.height,
                    self@.hint() == self@.hint_from(0, 0),
                    self@.hint_from(0, 0) == self@.hint_from(x as int, y as int),
                decreases self.height - y,
            {
                let p = Point::new(x, y);
                let hint = self.hint_for(&p);
                if hint.is_some() {
                    return hint;
                }
                y += 1;
            }
            x += 1;
        }
        None
    }
}

} // verus!
