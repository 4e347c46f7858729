//! Bots: strategies that choose a move, and the registry that finds them by
//! name.
//!
//! A bot draws no random numbers itself. Where its choice is meant to vary,
//! the caller hands it a number, and the choice is a function of the game and
//! that number.

use vstd::prelude::*;
use vstd::string::*;
use crate::board::Cell;
use crate::coordinates::{lemma_triangle_monotonic, lemma_triangle_step, triangle, Coordinates};
use crate::game::GameY;

verus! {

/// The number of empty cells among the first `upto` of `cells`.
pub open spec fn empty_count(cells: Seq<Cell>, upto: int) -> nat
    decreases upto,
{
    if upto <= 0 {
        0
    } else {
        empty_count(cells, upto - 1) + if cells[upto - 1] == Cell::Empty {
            1nat
        } else {
            0nat
        }
    }
}

/// No cell is counted as empty exactly where none of the cells is empty.
pub proof fn lemma_empty_count_zero(cells: Seq<Cell>, upto: int)
    requires
        0 <= upto,
    ensures
        empty_count(cells, upto) == 0 <==> forall|i: int|
            0 <= i < upto ==> #[trigger] cells[i] != Cell::Empty,
    decreases upto,
{
    if upto > 0 {
        lemma_empty_count_zero(cells, upto - 1);
        if empty_count(cells, upto) == 0 {
            assert forall|i: int| 0 <= i < upto implies #[trigger] cells[i] != Cell::Empty by {
                if i < upto - 1 {
                    assert(cells[i] != Cell::Empty);
                }
            }
        }
    }
}

/// The bot that takes any empty cell.
#[derive(Clone, Copy, Debug, PartialEq, Eq, Structural)]
pub struct RandomBot;

impl RandomBot {
    /// The name under which the bot is registered: `random_bot`.
    pub open spec fn name_text() -> Seq<char> {
        "random_bot"@
    }

    /// The name under which the bot is registered.
    pub fn name(&self) -> (s: String)
        ensures
            s@ == RandomBot::name_text(),
    {
        String::from_str("random_bot")
    }

    /// Chooses an empty cell of the board: of the `k` empty cells, in
    /// row-major order, the one at place `pick % k`. There is no choice when
    /// the game is finished or no cell is empty.
    pub fn choose_move(&self, game: &GameY, pick: u64) -> (choice: Option<Coordinates>)
        requires
            game.wf(),
        ensures
            choice is None <==> game@.next_player() is None || forall|i: int|
                0 <= i < game@.board.cells.len() ==> #[trigger] game@.board.cells[i]
                    != Cell::Empty,
            choice matches Some(c) ==> {
                &&& game@.board.contains(c)
                &&& game@.board.cell(c) == Cell::Empty
                &&& empty_count(game@.board.cells, c.index(game@.board.size)) == pick as int
                    % empty_count(game@.board.cells, game@.board.cells.len() as int) as int
            },
    {
        if game.next_player().is_none() {
            return None;
        }
        let board = game.board();
        let size: u32 = board.size();
        let count: usize = board.cell_count();
        let ghost cells = board@.cells;
        proof {
            game.lemma_wf();
        }
        let mut empty: usize = 0;
        let mut i: usize = 0;
        while i < count
            invariant
                i <= count,
                count == cells.len(),
                cells == board@.cells,
                empty == empty_count(cells, i as int),
                empty <= i,
            decreases count - i,
        {
            if board.cell_at(i) == Cell::Empty {
                empty = empty + 1;
            }
            i = i + 1;
        }
        proof {
            lemma_empty_count_zero(cells, count as int);
        }
        if empty == 0 {
            return None;
        }
        let target: usize = (pick % (empty as u64)) as usize;
        let mut seen: usize = 0;
        let mut index: usize = 0;
        let mut row: u32 = 0;
        proof {
            assert(triangle(0) == 0) by (nonlinear_arith);
        }
        while row < size
            invariant
                row <= size,
                board@.wf(),
                cells == board@.cells,
                board@ == game@.board,
                game@.next_player() is Some,
                size == board@.size,
                count == triangle(size as nat),
                index == triangle(row as nat),
                seen == empty_count(cells, index as int),
                seen <= target,
                target < empty,
                target == pick as int % empty as int,
                empty == empty_count(cells, count as int),
            decreases size - row,
        {
            let mut col: u32 = 0;
            proof {
                lemma_triangle_step(row as nat);
                lemma_triangle_monotonic((row + 1) as nat, size as nat);
            }
            while col <= row
                invariant
                    row < size,
                    col <= row + 1,
                    board@.wf(),
                    cells == board@.cells,
                    board@ == game@.board,
                    game@.next_player() is Some,
                    size == board@.size,
                    count == triangle(size as nat),
                    triangle(row as nat) + row + 1 <= count,
                    index == triangle(row as nat) + col,
                    seen == empty_count(cells, index as int),
                    seen <= target,
                    target < empty,
                    target == pick as int % empty as int,
                    empty == empty_count(cells, count as int),
                decreases row + 1 - col,
            {
                if board.cell_at(index) == Cell::Empty {
                    if seen == target {
                        let c = Coordinates::from_row_col(size, row, col);
                        return Some(c);
                    }
                    seen = seen + 1;
                }
                index = index + 1;
                col = col + 1;
            }
            row = row + 1;
        }
        None
    }
}

/// A bot.
#[derive(Clone, Copy, Debug, PartialEq, Eq, Structural)]
pub enum YBot {
    Random(RandomBot),
}

impl YBot {
    /// The name under which the bot is registered.
    pub open spec fn name_text(self) -> Seq<char> {
        match self {
            YBot::Random(_) => RandomBot::name_text(),
        }
    }

    /// The name under which the bot is registered.
    pub fn name(&self) -> (s: String)
        ensures
            s@ == self.name_text(),
    {
        match self {
            YBot::Random(bot) => bot.name(),
        }
    }

    /// The move that the bot makes in `game` when handed the number `pick`,
    /// or `None` where it has none.
    pub fn choose_move(&self, game: &GameY, pick: u64) -> (choice: Option<Coordinates>)
        requires
            game.wf(),
        ensures
            choice matches Some(c) ==> game@.next_player() is Some && game@.board.contains(c)
                && game@.board.cell(c) == Cell::Empty,
            *self matches YBot::Random(_) ==> {
                &&& choice is None <==> game@.next_player() is None || forall|i: int|
                    0 <= i < game@.board.cells.len() ==> #[trigger] game@.board.cells[i]
                        != Cell::Empty
                &&& choice matches Some(c) ==> empty_count(
                    game@.board.cells,
                    c.index(game@.board.size),
                ) == pick as int % empty_count(
                    game@.board.cells,
                    game@.board.cells.len() as int,
                ) as int
            },
    {
        match self {
            YBot::Random(bot) => bot.choose_move(game, pick),
        }
    }
}

/// The bot that `bots` holds under `name`: the last one added with that name.
pub open spec fn registered(bots: Seq<YBot>, name: Seq<char>) -> Option<YBot>
    decreases bots.len(),
{
    if bots.len() == 0 {
        None
    } else if bots.last().name_text() == name {
        Some(bots.last())
    } else {
        registered(bots.drop_last(), name)
    }
}

/// The bots that a server offers, by name.
pub struct YBotRegistry {
    bots: Vec<YBot>,
}

impl View for YBotRegistry {
    type V = Seq<YBot>;

    /// The bots in the order in which they were added.
    closed spec fn view(&self) -> Seq<YBot> {
        self.bots@
    }
}

impl YBotRegistry {
    /// The registry without a bot.
    pub fn new() -> (r: YBotRegistry)
        ensures
            r@ == Seq::<YBot>::empty(),
    {
        YBotRegistry { bots: Vec::new() }
    }

    /// The registry with `bot` added. Under its name `bot` takes the place
    /// of a bot added before.
    pub fn with_bot(self, bot: YBot) -> (r: YBotRegistry)
        ensures
            r@ == self@.push(bot),
    {
        let mut bots = self.bots;
        bots.push(bot);
        YBotRegistry { bots }
    }

    /// The bot registered under `name`.
    pub fn find(&self, name: &str) -> (bot: Option<YBot>)
        ensures
            bot == registered(self@, name@),
    {
        let wanted: String = String::from_str(name);
        let mut i: usize = self.bots.len();
        assert(self.bots@.take(i as int) == self.bots@);
        while i > 0
            invariant
                i <= self.bots@.len(),
                wanted@ == name@,
                registered(self.bots@, name@) == registered(self.bots@.take(i as int), name@),
            decreases i,
        {
            let bot: YBot = self.bots[i - 1];
            proof {
                let shown = self.bots@.take(i as int);
                assert(shown.last() == bot);
                assert(shown.drop_last() == self.bots@.take(i - 1));
            }
            if bot.name() == wanted {
                return Some(bot);
            }
            i = i - 1;
        }
        None
    }

    /// The names of the bots, in the order in which they were added.
    pub fn names(&self) -> (names: Vec<String>)
        ensures
            names@.len() == self@.len(),
            forall|i: int| 0 <= i < names@.len() ==> (#[trigger] names@[i])@ == self@[i].name_text(),
    {
        let mut names: Vec<String> = Vec::new();
        let mut i: usize = 0;
        while i < self.bots.len()
            invariant
                i <= self.bots@.len(),
                names@.len() == i,
                forall|j: int|
                    0 <= j < names@.len() ==> (#[trigger] names@[j])@ == self.bots@[j].name_text(),
            decreases self.bots@.len() - i,
        {
            names.push(self.bots[i].name());
            i = i + 1;
        }
        names
    }
}

} // verus!
