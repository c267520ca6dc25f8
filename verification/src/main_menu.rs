//! The main menu: a cursor over the three configuration fields and the
//! start entry, and the transition that generates a fresh minefield and
//! hands over to a running game.

use vstd::prelude::*;
use crate::game::{
    CellState, Game, GenerateError, RandomMineFieldGenerator, count_mines, fresh_rng,
};
use crate::geom::Size2D;

verus! {

/// The menu entry the cursor rests on. Up and down cycle through the
/// entries circularly.
#[derive(Debug, Clone, Copy, PartialEq, Eq, Structural)]
pub enum MainMenuCursorPosition {
    Width,
    Height,
    MineCount,
    StartGame,
}

/// The entry below `p`, wrapping from the last back to the first.
pub open spec fn spec_next_position(p: MainMenuCursorPosition) -> MainMenuCursorPosition {
    match p {
        MainMenuCursorPosition::Width => MainMenuCursorPosition::Height,
        MainMenuCursorPosition::Height => MainMenuCursorPosition::MineCount,
        MainMenuCursorPosition::MineCount => MainMenuCursorPosition::StartGame,
        MainMenuCursorPosition::StartGame => MainMenuCursorPosition::Width,
    }
}

/// The entry above `p`, wrapping from the first back to the last.
pub open spec fn spec_prev_position(p: MainMenuCursorPosition) -> MainMenuCursorPosition {
    match p {
        MainMenuCursorPosition::StartGame => MainMenuCursorPosition::MineCount,
        MainMenuCursorPosition::MineCount => MainMenuCursorPosition::Height,
        MainMenuCursorPosition::Height => MainMenuCursorPosition::Width,
        MainMenuCursorPosition::Width => MainMenuCursorPosition::StartGame,
    }
}

impl MainMenuCursorPosition {
    /// The next entry downwards, cycling.
    pub fn next(&self) -> (r: MainMenuCursorPosition)
        ensures
            r == spec_next_position(*self),
    {
        match self {
            MainMenuCursorPosition::Width => MainMenuCursorPosition::Height,
            MainMenuCursorPosition::Height => MainMenuCursorPosition::MineCount,
            MainMenuCursorPosition::MineCount => MainMenuCursorPosition::StartGame,
            MainMenuCursorPosition::StartGame => MainMenuCursorPosition::Width,
        }
    }

    /// The next entry upwards, cycling.
    pub fn prev(&self) -> (r: MainMenuCursorPosition)
        ensures
            r == spec_prev_position(*self),
    {
        match self {
            MainMenuCursorPosition::StartGame => MainMenuCursorPosition::MineCount,
            MainMenuCursorPosition::MineCount => MainMenuCursorPosition::Height,
            MainMenuCursorPosition::Height => MainMenuCursorPosition::Width,
            MainMenuCursorPosition::Width => MainMenuCursorPosition::StartGame,
        }
    }
}

/// The main menu: the board configuration and the cursor over its entries.
pub struct MainMenu {
    pub cursor_position: MainMenuCursorPosition,
    pub width: usize,
    pub height: usize,
    pub mine_count: usize,
}

impl Default for MainMenu {
    /// A 10 by 10 board with 10 mines, the cursor on the start entry.
    fn default() -> (r: Self)
        ensures
            r.cursor_position == MainMenuCursorPosition::StartGame,
            r.width == 10,
            r.height == 10,
            r.mine_count == 10,
    {
        Self {
            cursor_position: MainMenuCursorPosition::StartGame,
            width: 10,
            height: 10,
            mine_count: 10,
        }
    }
}

/// The per-tick input to the menu: which controls were pressed.
#[derive(Debug, Clone, Copy, PartialEq, Eq, Structural)]
pub struct MenuInput {
    pub up: bool,
    pub down: bool,
    pub confirm: bool,
    pub exit: bool,
}

/// What a menu tick asks the surrounding driver to do.
pub enum MenuEvent {
    /// Leave the program.
    Exit,
    /// Hand control to this freshly started round.
    Play(Game),
    /// The configuration cannot be played; report the error and stay.
    Rejected(GenerateError),
}

/// Where the menu cursor rests after one tick of input: up, then down.
pub open spec fn spec_menu_cursor_after(
    c: MainMenuCursorPosition,
    input: MenuInput,
) -> MainMenuCursorPosition {
    let c1 = if input.up {
        spec_prev_position(c)
    } else {
        c
    };
    if input.down {
        spec_next_position(c1)
    } else {
        c1
    }
}

impl MainMenu {
    /// Generate a minefield from the configured width, height and mine
    /// count, and start a round on it. Fails, starting nothing, iff more
    /// mines are configured than the board has cells.
    pub fn start_game(&self) -> (r: Result<Game, GenerateError>)
        requires
            self.width * self.height <= usize::MAX,
        ensures
            r is Ok <==> self.mine_count <= self.width * self.height,
            r matches Ok(g) ==> {
                &&& g.wf()
                &&& !g.spec_game_over()
                &&& !g.spec_won()
                &&& g.spec_field().spec_size() == Size2D(self.width, self.height)
                &&& count_mines(g.spec_field()@) == self.mine_count
                &&& forall|i: int|
                    0 <= i < g.spec_field()@.len() ==> (#[trigger] g.spec_field()@[i]).state
                        == CellState::Closed
            },
    {
        let mut generator = RandomMineFieldGenerator { random: fresh_rng() };
        match generator.generate(Size2D(self.width, self.height), self.mine_count) {
            Ok(field) => Ok(Game::with_minefield(field)),
            Err(e) => Err(e),
        }
    }

    /// One tick of the menu. Exit input wins over everything; up and down
    /// move the cursor; confirming on the start entry starts a round (or
    /// reports the configuration error); anything else stays in the menu.
    pub fn update(&mut self, input: &MenuInput) -> (r: Option<MenuEvent>)
        requires
            old(self).width * old(self).height <= usize::MAX,
        ensures
            final(self).width == old(self).width,
            final(self).height == old(self).height,
            final(self).mine_count == old(self).mine_count,
            input.exit ==> (r matches Some(e) && e == MenuEvent::Exit && *final(self) == *old(
                self,
            )),
            !input.exit ==> final(self).cursor_position == spec_menu_cursor_after(
                old(self).cursor_position,
                *input,
            ),
            !input.exit ==> ({
                let starts = spec_menu_cursor_after(old(self).cursor_position, *input)
                    == MainMenuCursorPosition::StartGame && input.confirm;
                &&& !starts ==> r is None
                &&& starts && old(self).mine_count <= old(self).width * old(self).height ==> (
                r matches Some(e) && e matches MenuEvent::Play(g) && g.wf() && !g.spec_game_over()
                    && !g.spec_won() && g.spec_field().spec_size() == Size2D(
                    old(self).width,
                    old(self).height,
                ) && count_mines(g.spec_field()@) == old(self).mine_count)
                &&& starts && old(self).mine_count > old(self).width * old(self).height ==> (
                r matches Some(e) && e matches MenuEvent::Rejected(_))
            }),
    {
        if input.exit {
            return Some(MenuEvent::Exit);
        }
        if input.up {
            self.cursor_position = self.cursor_position.prev();
        }
        if input.down {
            self.cursor_position = self.cursor_position.next();
        }
        if matches!(self.cursor_position, MainMenuCursorPosition::StartGame) && input.confirm {
            return match self.start_game() {
                Ok(game) => Some(MenuEvent::Play(game)),
                Err(e) => Some(MenuEvent::Rejected(e)),
            };
        }
        None
    }
}

} // verus!
