//! The board game that the search explores: a 19 x 19 board on which two
//! players alternate placing stones, and a line of exactly five wins.

use vstd::prelude::*;

verus! {

/// The player who is about to move.
#[derive(Debug, Clone, Copy, PartialEq, Eq, Structural, PartialOrd, Ord, Hash)]
pub enum Turn {
    Black,
    White,
}

impl Turn {
    /// The other player.
    pub open spec fn spec_opponent(self) -> Turn {
        match self {
            Turn::Black => Turn::White,
            Turn::White => Turn::Black,
        }
    }

    #[verifier::when_used_as_spec(spec_opponent)]
    pub fn opponent(self) -> (other: Turn)
        ensures
            other == self.spec_opponent(),
    {
        match self {
            Turn::Black => Turn::White,
            Turn::White => Turn::Black,
        }
    }

    /// The stone that this player places.
    pub open spec fn spec_stone(self) -> Stone {
        match self {
            Turn::Black => Stone::Black,
            Turn::White => Stone::White,
        }
    }

    #[verifier::when_used_as_spec(spec_stone)]
    pub fn stone(self) -> (stone: Stone)
        ensures
            stone == self.spec_stone(),
    {
        match self {
            Turn::Black => Stone::Black,
            Turn::White => Stone::White,
        }
    }

    /// The status of a game that this player has just won.
    pub open spec fn spec_win(self) -> GameStatus {
        match self {
            Turn::Black => GameStatus::BlackWin,
            Turn::White => GameStatus::WhiteWin,
        }
    }

    #[verifier::when_used_as_spec(spec_win)]
    pub fn win(self) -> (status: GameStatus)
        ensures
            status == self.spec_win(),
    {
        match self {
            Turn::Black => GameStatus::BlackWin,
            Turn::White => GameStatus::WhiteWin,
        }
    }

    /// The player's name, as it is printed.
    pub open spec fn spec_name(self) -> Seq<char> {
        match self {
            Turn::Black => "Black"@,
            Turn::White => "White"@,
        }
    }

    pub fn name(self) -> (text: String)
        ensures
            text@ == self.spec_name(),
    {
        match self {
            Turn::Black => "Black".to_string(),
            Turn::White => "White".to_string(),
        }
    }
}

/// What a cell of the board holds.
#[derive(Debug, Clone, Copy, PartialEq, Eq, Structural, Hash)]
pub enum Stone {
    Empty,
    Black,
    White,
}

impl Stone {
    /// The cell as a number: 1 for a black stone, -1 for a white one, 0 for
    /// an empty cell.
    pub open spec fn spec_value(self) -> i8 {
        match self {
            Stone::Empty => 0i8,
            Stone::Black => 1i8,
            Stone::White => -1i8,
        }
    }

    #[verifier::when_used_as_spec(spec_value)]
    pub fn value(self) -> (value: i8)
        ensures
            value == self.spec_value(),
    {
        match self {
            Stone::Empty => 0,
            Stone::Black => 1,
            Stone::White => -1,
        }
    }

    /// The cell as a number seen by `turn`: 1 for a stone of `turn`, -1 for a
    /// stone of the opponent, 0 for an empty cell.
    pub open spec fn seen_by(self, turn: Turn) -> i8 {
        match turn {
            Turn::Black => self.spec_value(),
            Turn::White => (-self.spec_value()) as i8,
        }
    }
}

/// How a game stands after a move.
#[derive(Debug, Clone, Copy, PartialEq, Eq, Structural, PartialOrd, Ord, Hash)]
pub enum GameStatus {
    InProgress,
    Draw,
    BlackWin,
    WhiteWin,
}

/// Whether column `x` and row `y` name a cell of the board.
pub open spec fn on_board(x: int, y: int) -> bool {
    0 <= x < 19 && 0 <= y < 19
}

/// The index of the cell in column `x` and row `y`.
pub open spec fn cell(x: int, y: int) -> int {
    y * 19 + x
}

/// The number of marked cells met in a row when walking from (`x`, `y`) in
/// steps of (`dx`, `dy`), (`x`, `y`) included, over at most `left` cells. The
/// walk ends at the first cell that is unmarked or off the board.
pub open spec fn run_at(marks: Seq<bool>, x: int, y: int, dx: int, dy: int, left: nat) -> nat
    decreases left,
{
    if left > 0 && on_board(x, y) && marks[cell(x, y)] {
        1 + run_at(marks, x + dx, y + dy, dx, dy, (left - 1) as nat)
    } else {
        0
    }
}

/// The number of marked cells that follow cell `index` without a gap in
/// direction (`dx`, `dy`), at most five.
pub open spec fn run(marks: Seq<bool>, index: int, dx: int, dy: int) -> nat {
    run_at(marks, index % 19 + dx, index / 19 + dy, dx, dy, 5)
}

/// The length of the line through cell `index` along (`dx`, `dy`): the cell
/// itself and the marked cells that adjoin it on either side, at most five on
/// each.
pub open spec fn line(marks: Seq<bool>, index: int, dx: int, dy: int) -> nat {
    1 + run(marks, index, -dx, -dy) + run(marks, index, dx, dy)
}

/// Whether one of the four lines through cell `index` has exactly five cells.
pub open spec fn makes_five(marks: Seq<bool>, index: int) -> bool {
    ||| line(marks, index, 1, 0) == 5
    ||| line(marks, index, 0, 1) == 5
    ||| line(marks, index, 1, 1) == 5
    ||| line(marks, index, 1, -1) == 5
}

/// The cells of `board` that hold `stone`.
pub open spec fn stones_of(board: Seq<Stone>, stone: Stone) -> Seq<bool> {
    Seq::new(board.len(), |i: int| board[i] == stone)
}

/// The cells of a board of numbers that hold a positive one.
pub open spec fn positives(board: Seq<i8>) -> Seq<bool> {
    Seq::new(board.len(), |i: int| board[i] > 0)
}

/// The number of `true` entries.
pub open spec fn count_true(flags: Seq<bool>) -> nat
    decreases flags.len(),
{
    if flags.len() == 0 {
        0
    } else {
        count_true(flags.drop_last()) + if flags.last() {
            1nat
        } else {
            0nat
        }
    }
}

/// Clearing one set flag lowers the count by one.
pub proof fn lemma_count_true_clear(flags: Seq<bool>, index: int)
    requires
        0 <= index < flags.len(),
        flags[index],
    ensures
        count_true(flags) == count_true(flags.update(index, false)) + 1,
    decreases flags.len(),
{
    let cleared = flags.update(index, false);
    if index == flags.len() - 1 {
        assert(cleared.drop_last() =~= flags.drop_last());
    } else {
        lemma_count_true_clear(flags.drop_last(), index);
        assert(cleared.drop_last() =~= flags.drop_last().update(index, false));
    }
}

/// A sequence without a set flag counts zero, and the other way round.
pub proof fn lemma_count_true_zero(flags: Seq<bool>)
    ensures
        count_true(flags) == 0 <==> (forall|i: int| 0 <= i < flags.len() ==> !flags[i]),
    decreases flags.len(),
{
    if flags.len() > 0 {
        lemma_count_true_zero(flags.drop_last());
        if count_true(flags) == 0 {
            assert forall|i: int| 0 <= i < flags.len() implies !flags[i] by {
                if i < flags.len() - 1 {
                    assert(flags.drop_last()[i] == flags[i]);
                }
            }
        } else if forall|i: int| 0 <= i < flags.len() ==> !flags[i] {
            assert forall|i: int| 0 <= i < flags.drop_last().len() implies !flags.drop_last()[i] by {
                assert(flags.drop_last()[i] == flags[i]);
            }
            assert(!flags.last());
        }
    }
}

/// How the game stands once `mover` has placed a stone on cell `index`,
/// giving `board`, with `remaining` empty cells left.
pub open spec fn status_after(board: Seq<Stone>, index: int, mover: Turn, remaining: int) -> GameStatus {
    if makes_five(stones_of(board, mover.spec_stone()), index) {
        mover.spec_win()
    } else if remaining == 0 {
        GameStatus::Draw
    } else {
        GameStatus::InProgress
    }
}

/// A position: the stones on the board, who moves next, and which cells are
/// still free.
#[derive(Debug, Clone, Copy)]
pub struct Environment {
    pub turn: Turn,
    /// Row by row, 19 cells to a row.
    pub board: [Stone; 361],
    pub legal_moves: [bool; 361],
    pub legal_move_count: usize,
}

impl Environment {
    /// The number of cells in a row and in a column.
    pub const BOARD_SIZE: usize = 19;

    /// The length of the line that wins.
    pub const SERIAL_STONE_COUNT: usize = 5;

    /// The free cells are exactly the empty ones, and they are counted.
    pub open spec fn wf(self) -> bool {
        &&& forall|i: int| 0 <= i < 361 ==> (#[trigger] self.legal_moves[i] <==> self.board[i] == Stone::Empty)
        &&& self.legal_move_count == count_true(self.legal_moves@)
    }

    /// Whether this position is `before` with a stone of the player to move
    /// added on cell `index`.
    pub open spec fn follows(self, before: Environment, index: int) -> bool {
        &&& self.turn == before.turn.spec_opponent()
        &&& self.board@ == before.board@.update(index, before.turn.spec_stone())
        &&& self.legal_moves@ == before.legal_moves@.update(index, false)
        &&& self.legal_move_count == before.legal_move_count - 1
    }

    /// The empty board, with Black to move.
    pub fn new() -> (env: Environment)
        ensures
            env.wf(),
            env.turn == Turn::Black,
            env.legal_move_count == 361,
            forall|i: int| 0 <= i < 361 ==> env.board[i] == Stone::Empty,
            forall|i: int| 0 <= i < 361 ==> env.legal_moves[i],
    {
        let env = Environment {
            turn: Turn::Black,
            board: [Stone::Empty; 361],
            legal_moves: [true; 361],
            legal_move_count: 361,
        };
        proof {
            lemma_count_all_true(env.legal_moves@);
        }
        env
    }

    /// Writes the board as numbers seen by `turn` into `slice`.
    pub fn copy_board(&self, turn: Turn, slice: &mut [i8; 361])
        ensures
            forall|i: int| 0 <= i < 361 ==> (#[trigger] final(slice)[i]) == self.board[i].seen_by(turn),
    {
        let mut i: usize = 0;
        while i < 361
            invariant
                i <= 361,
                forall|j: int| 0 <= j < i ==> (#[trigger] slice[j]) == self.board[j].seen_by(turn),
            decreases 361 - i,
        {
            let value: i8 = self.board[i].value();
            slice[i] = match turn {
                Turn::Black => value,
                Turn::White => -value,
            };
            i += 1;
        }
    }

    /// The board as two planes seen by `perspective`, cell by cell: first
    /// whether the cell holds a stone of `perspective`, then whether it
    /// holds one of the opponent.
    pub fn encode_board(&self, perspective: Turn) -> (planes: Vec<u8>)
        ensures
            planes@ == spec_encode(self.board@, perspective),
    {
        let own = perspective.stone();
        let other = perspective.opponent().stone();
        let mut planes: Vec<u8> = Vec::new();
        let mut i: usize = 0;
        while i < 361
            invariant
                i <= 361,
                own == perspective.spec_stone(),
                other == perspective.spec_opponent().spec_stone(),
                planes@.len() == 2 * i,
                forall|j: int| 0 <= j < 2 * i ==> (#[trigger] planes@[j]) == spec_encode(self.board@, perspective)[j],
            decreases 361 - i,
        {
            let stone = self.board[i];
            planes.push(if stone == own { 1 } else { 0 });
            planes.push(if stone == other { 1 } else { 0 });
            i += 1;
        }
        assert(planes@ =~= spec_encode(self.board@, perspective));
        planes
    }

    /// Places a stone of the player to move on cell `index` and says how the
    /// game stands. The mover wins with a line of exactly five stones through
    /// that cell; otherwise the game is drawn when no free cell is left.
    pub fn place_stone(&mut self, index: usize) -> (status: GameStatus)
        requires
            index < 361,
            old(self).legal_move_count > 0,
        ensures
            final(self).follows(*old(self), index as int),
            status == status_after(
                final(self).board@,
                index as int,
                old(self).turn,
                final(self).legal_move_count as int,
            ),
            old(self).wf() && old(self).legal_moves[index as int] ==> final(self).wf(),
    {
        let turn = self.turn;
        proof {
            if self.wf() && self.legal_moves[index as int] {
                lemma_count_true_clear(self.legal_moves@, index as int);
            }
        }
        self.board[index] = turn.stone();
        self.legal_moves[index] = false;
        self.legal_move_count -= 1;
        self.turn = turn.opponent();

        let horizontal_count = 1 + self.count_serial_stones(turn, index, -1, 0)
            + self.count_serial_stones(turn, index, 1, 0);
        let vertical_count = 1 + self.count_serial_stones(turn, index, 0, -1)
            + self.count_serial_stones(turn, index, 0, 1);
        let diagonal_lt_rb_count = 1 + self.count_serial_stones(turn, index, -1, -1)
            + self.count_serial_stones(turn, index, 1, 1);
        let diagonal_lb_rt_count = 1 + self.count_serial_stones(turn, index, -1, 1)
            + self.count_serial_stones(turn, index, 1, -1);

        if horizontal_count == Self::SERIAL_STONE_COUNT || vertical_count
            == Self::SERIAL_STONE_COUNT || diagonal_lt_rb_count == Self::SERIAL_STONE_COUNT
            || diagonal_lb_rt_count == Self::SERIAL_STONE_COUNT {
            turn.win()
        } else if self.legal_move_count == 0 {
            GameStatus::Draw
        } else {
            GameStatus::InProgress
        }
    }

    /// Places a stone like `place_stone`, but only on a free cell of the
    /// board, and only while a free cell is counted: else the position stays
    /// as it is.
    pub fn try_place_stone(&mut self, index: usize) -> (status: Option<GameStatus>)
        ensures
            old(self).wf() ==> final(self).wf(),
            status is Some <==> index < 361 && old(self).legal_moves[index as int] && old(
                self,
            ).legal_move_count > 0,
            status is None ==> *final(self) == *old(self),
            status is Some ==> final(self).follows(*old(self), index as int) && status->0
                == status_after(
                final(self).board@,
                index as int,
                old(self).turn,
                final(self).legal_move_count as int,
            ),
    {
        if index < 361 && self.legal_moves[index] && self.legal_move_count > 0 {
            Some(self.place_stone(index))
        } else {
            None
        }
    }

    /// Counts the stones of `turn` that follow cell `index` without a gap in
    /// direction (`dx`, `dy`), five at most.
    fn count_serial_stones(&self, turn: Turn, index: usize, dx: i8, dy: i8) -> (count: usize)
        requires
            index < 361,
            -1 <= dx <= 1,
            -1 <= dy <= 1,
        ensures
            count == run(stones_of(self.board@, turn.spec_stone()), index as int, dx as int, dy as int),
            count <= 5,
    {
        let stone = turn.stone();
        let ghost marks = stones_of(self.board@, stone);
        let mut x: i32 = (index % 19) as i32 + dx as i32;
        let mut y: i32 = (index / 19) as i32 + dy as i32;
        let mut count: usize = 0;
        let mut left: usize = 5;
        let mut going = true;
        while going && left > 0
            invariant
                -1 <= dx <= 1,
                -1 <= dy <= 1,
                left <= 5,
                count + left <= 5,
                -6 + left <= x <= 24 - left,
                -6 + left <= y <= 24 - left,
                marks == stones_of(self.board@, stone),
                count + (if going {
                    run_at(marks, x as int, y as int, dx as int, dy as int, left as nat)
                } else {
                    0
                }) == run(marks, index as int, dx as int, dy as int),
            decreases left + if going { 1int } else { 0int },
        {
            if x < 0 || 19 <= x || y < 0 || 19 <= y {
                going = false;
            } else if self.board[(y * 19 + x) as usize] != stone {
                going = false;
            } else {
                count += 1;
                x += dx as i32;
                y += dy as i32;
                left -= 1;
            }
        }
        count
    }
}

/// The two planes of `board` seen by `perspective`, cell by cell.
pub open spec fn spec_encode(board: Seq<Stone>, perspective: Turn) -> Seq<u8> {
    Seq::new(
        2 * board.len(),
        |j: int|
            if j % 2 == 0 {
                if board[j / 2] == perspective.spec_stone() {
                    1u8
                } else {
                    0u8
                }
            } else {
                if board[j / 2] == perspective.spec_opponent().spec_stone() {
                    1u8
                } else {
                    0u8
                }
            },
    )
}

/// Judges a board of numbers on which the player who sees its own stones as
/// positive has just moved on cell `index`: `Some(1)` where one of the four
/// lines of positive cells through `index` has exactly five cells, else
/// `Some(0)` where no free cell is left, else `None`.
pub fn compute_state(board: &[i8; 361], index: usize, legal_move_count: usize) -> (outcome: Option<i8>)
    ensures
        outcome == spec_compute_state(board@, index as int, legal_move_count as int),
{
    let horizontal_count = 1 + count_serial_stones(board, index, -1, 0) + count_serial_stones(
        board,
        index,
        1,
        0,
    );
    let vertical_count = 1 + count_serial_stones(board, index, 0, -1) + count_serial_stones(
        board,
        index,
        0,
        1,
    );
    let diagonal_lt_rb_count = 1 + count_serial_stones(board, index, -1, -1) + count_serial_stones(
        board,
        index,
        1,
        1,
    );
    let diagonal_lb_rt_count = 1 + count_serial_stones(board, index, -1, 1) + count_serial_stones(
        board,
        index,
        1,
        -1,
    );

    if horizontal_count == Environment::SERIAL_STONE_COUNT || vertical_count
        == Environment::SERIAL_STONE_COUNT || diagonal_lt_rb_count
        == Environment::SERIAL_STONE_COUNT || diagonal_lb_rt_count
        == Environment::SERIAL_STONE_COUNT {
        Some(1)
    } else if legal_move_count == 0 {
        Some(0)
    } else {
        None
    }
}

/// What `compute_state` returns.
pub open spec fn spec_compute_state(board: Seq<i8>, index: int, legal_move_count: int) -> Option<i8> {
    if makes_five(positives(board), index) {
        Some(1i8)
    } else if legal_move_count == 0 {
        Some(0i8)
    } else {
        None
    }
}

/// Counts the positive cells that follow cell `index` without a gap in
/// direction (`dx`, `dy`), five at most.
fn count_serial_stones(board: &[i8; 361], index: usize, dx: i8, dy: i8) -> (count: usize)
    requires
        -1 <= dx <= 1,
        -1 <= dy <= 1,
    ensures
        count == run(positives(board@), index as int, dx as int, dy as int),
        count <= 5,
{
    let ghost marks = positives(board@);
    let column: usize = index % 19;
    let row: usize = index / 19;
    if row > 19 {
        proof {
            lemma_run_off_board(marks, column as int + dx, row as int + dy, dx as int, dy as int, 5);
        }
        return 0;
    }
    let mut x: i32 = column as i32 + dx as i32;
    let mut y: i32 = row as i32 + dy as i32;
    let mut count: usize = 0;
    let mut left: usize = 5;
    let mut going = true;
    while going && left > 0
        invariant
            -1 <= dx <= 1,
            -1 <= dy <= 1,
            left <= 5,
            count + left <= 5,
            -6 + left <= x <= 24 - left,
            -6 + left <= y <= 25 - left,
            marks == positives(board@),
            count + (if going {
                run_at(marks, x as int, y as int, dx as int, dy as int, left as nat)
            } else {
                0
            }) == run(marks, index as int, dx as int, dy as int),
        decreases left + if going { 1int } else { 0int },
    {
        if x < 0 || 19 <= x || y < 0 || 19 <= y {
            going = false;
        } else if board[(y * 19 + x) as usize] <= 0 {
            going = false;
        } else {
            count += 1;
            x += dx as i32;
            y += dy as i32;
            left -= 1;
        }
    }
    count
}

/// A walk that starts off the board meets no cell.
proof fn lemma_run_off_board(marks: Seq<bool>, x: int, y: int, dx: int, dy: int, left: nat)
    requires
        !on_board(x, y),
    ensures
        run_at(marks, x, y, dx, dy, left) == 0,
{
}

/// A sequence of set flags counts its length.
pub proof fn lemma_count_all_true(flags: Seq<bool>)
    requires
        forall|i: int| 0 <= i < flags.len() ==> flags[i],
    ensures
        count_true(flags) == flags.len(),
    decreases flags.len(),
{
    if flags.len() > 0 {
        assert forall|i: int| 0 <= i < flags.drop_last().len() implies flags.drop_last()[i] by {
            assert(flags.drop_last()[i] == flags[i]);
        }
        lemma_count_all_true(flags.drop_last());
    }
}

} // verus!
