use minesweeper::collections::Vec2D;
use minesweeper::game::{
    Cell, CellState, CellType, GameInput, GenerateError, Minefield, RandomMineFieldGenerator,
};
use minesweeper::geom::{Point2D, Size2D};

fn water_field(width: usize, height: usize) -> Minefield {
    Minefield::with_data(Vec2D::sized(&Size2D(width, height), Cell::default()))
}

#[test]
fn toggle_flag() {
    assert_eq!(CellState::Opened, CellState::Opened.toggle_flag());
    assert_eq!(CellState::Flagged, CellState::Closed.toggle_flag());
    assert_eq!(CellState::Closed, CellState::Flagged.toggle_flag());
}

#[test]
fn open() {
    assert_eq!(CellState::Opened, CellState::Opened.open());
    assert_eq!(CellState::Opened, CellState::Closed.open());
    assert_eq!(CellState::Flagged, CellState::Flagged.open());
}

#[test]
fn cannot_open_flagged() {
    let mut minefield = Minefield::with_data(Vec2D::sized(&Size2D(5, 5), Cell::default()));
    let location = Point2D(0, 0);
    minefield.flag(&location);
    minefield.open(&location);
    assert!(!minefield.get(&location).unwrap().is_open());
}

#[test]
fn open_flagged_stays_flagged_and_reports_absent() {
    let mut minefield = water_field(2, 2);
    let location = Point2D(1, 1);
    minefield.flag(&location);
    assert_eq!(None, minefield.open(&location));
    assert_eq!(CellState::Flagged, minefield.get(&location).unwrap().state);
}

#[test]
fn open_reports_the_kind_once() {
    let mut data = Vec2D::sized(&Size2D(2, 1), Cell::default());
    data.get_mut(&Point2D(1, 0)).unwrap().cell_type = CellType::Mine;
    let mut minefield = Minefield::with_data(data);
    assert_eq!(Some(CellType::Water), minefield.open(&Point2D(0, 0)));
    assert_eq!(None, minefield.open(&Point2D(0, 0)));
    assert_eq!(Some(CellType::Mine), minefield.open(&Point2D(1, 0)));
}

#[test]
fn open_outside_extent_is_absent() {
    let mut minefield = water_field(2, 2);
    assert_eq!(None, minefield.open(&Point2D(2, 0)));
    assert_eq!(None, minefield.open(&Point2D(0, 5)));
}

#[test]
fn count_neighbours_around_a_mine() {
    let mut data = Vec2D::sized(&Size2D(3, 3), Cell::default());
    data.get_mut(&Point2D(1, 1)).unwrap().cell_type = CellType::Mine;
    let minefield = Minefield::with_data(data);
    assert_eq!(1, minefield.count_neighbours(&Point2D(0, 0)));
    assert_eq!(1, minefield.count_neighbours(&Point2D(2, 2)));
    assert_eq!(0, minefield.count_neighbours(&Point2D(1, 1)));
}

#[test]
fn flood_fill_opens_connected_region_but_not_the_mine() {
    let mut data = Vec2D::sized(&Size2D(5, 5), Cell::default());
    data.get_mut(&Point2D(4, 4)).unwrap().cell_type = CellType::Mine;
    let mut minefield = Minefield::with_data(data);
    assert_eq!(Some(CellType::Water), minefield.open(&Point2D(0, 0)));
    for x in 0..5 {
        for y in 0..5 {
            let cell = minefield.get(&Point2D(x, y)).unwrap();
            if x == 4 && y == 4 {
                assert_eq!(CellState::Closed, cell.state);
            } else {
                assert_eq!(CellState::Opened, cell.state);
            }
        }
    }
}

#[test]
fn flood_fill_stops_at_numbered_border() {
    // One mine in the middle of a 5x1 strip: opening the left end cascades
    // up to the numbered cell next to the mine and no further.
    let mut data = Vec2D::sized(&Size2D(5, 1), Cell::default());
    data.get_mut(&Point2D(2, 0)).unwrap().cell_type = CellType::Mine;
    let mut minefield = Minefield::with_data(data);
    minefield.open(&Point2D(0, 0));
    assert_eq!(CellState::Opened, minefield.get(&Point2D(0, 0)).unwrap().state);
    assert_eq!(CellState::Opened, minefield.get(&Point2D(1, 0)).unwrap().state);
    assert_eq!(CellState::Closed, minefield.get(&Point2D(2, 0)).unwrap().state);
    assert_eq!(CellState::Closed, minefield.get(&Point2D(3, 0)).unwrap().state);
    assert_eq!(CellState::Closed, minefield.get(&Point2D(4, 0)).unwrap().state);
}

#[test]
fn only_mines_remaining_in_water_only_field() {
    let mut minefield = Minefield::with_data(Vec2D::sized(&Size2D(5, 5), Cell::default()));
    minefield.reveal_all();
    assert!(minefield.only_mines_remaining());
}

#[test]
fn mines_remaining_with_closed_water() {
    let mut data = Vec2D::sized(&Size2D(2, 1), Cell::default());
    data.get_mut(&Point2D(0, 0)).unwrap().state = CellState::Opened;
    let minefield = Minefield::with_data(data);
    assert!(!minefield.only_mines_remaining());
}

#[test]
fn mines_remaining_mixed() {
    let mut data = Vec2D::sized(&Size2D(2, 1), Cell::default());
    data.get_mut(&Point2D(0, 0)).unwrap().state = CellState::Opened;
    data.get_mut(&Point2D(1, 0)).unwrap().cell_type = CellType::Mine;
    let minefield = Minefield::with_data(data);
    assert!(minefield.only_mines_remaining());
}

#[test]
fn reveal_all_keeps_flags() {
    let mut minefield = water_field(2, 2);
    minefield.flag(&Point2D(0, 1));
    minefield.reveal_all();
    assert_eq!(CellState::Flagged, minefield.get(&Point2D(0, 1)).unwrap().state);
    assert_eq!(CellState::Opened, minefield.get(&Point2D(0, 0)).unwrap().state);
    assert_eq!(CellState::Opened, minefield.get(&Point2D(1, 0)).unwrap().state);
    assert_eq!(CellState::Opened, minefield.get(&Point2D(1, 1)).unwrap().state);
}

#[test]
fn generator_puts_correct_number_of_mines() {
    let mut generator = RandomMineFieldGenerator { random: rand::thread_rng() };
    let minefield = generator.generate(Size2D(10, 10), 15).unwrap();
    let mut mine_count = 0;
    for x in 0..10 {
        for y in 0..10 {
            if minefield.get(&Point2D(x, y)).unwrap().cell_type == CellType::Mine {
                mine_count += 1;
            }
        }
    }
    assert_eq!(15, mine_count);
}

#[test]
fn generator_fills_the_whole_board() {
    let mut generator = RandomMineFieldGenerator { random: rand::thread_rng() };
    let minefield = generator.generate(Size2D(2, 2), 4).unwrap();
    for x in 0..2 {
        for y in 0..2 {
            let cell = minefield.get(&Point2D(x, y)).unwrap();
            assert_eq!(CellType::Mine, cell.cell_type);
            assert_eq!(CellState::Closed, cell.state);
        }
    }
}

#[test]
fn generator_with_zero_mines() {
    let mut generator = RandomMineFieldGenerator { random: rand::thread_rng() };
    let minefield = generator.generate(Size2D(3, 2), 0).unwrap();
    for x in 0..3 {
        for y in 0..2 {
            assert_eq!(CellType::Water, minefield.get(&Point2D(x, y)).unwrap().cell_type);
        }
    }
}

#[test]
fn generator_rejects_too_many_mines() {
    let mut generator = RandomMineFieldGenerator { random: rand::thread_rng() };
    let result = generator.generate(Size2D(2, 2), 5);
    assert_eq!(Err(GenerateError::TooManyMines), result.map(|_| ()));
}

fn quiet_input() -> GameInput {
    GameInput {
        left: false,
        up: false,
        right: false,
        down: false,
        open: false,
        flag: false,
        exit: false,
    }
}

#[test]
fn game_exit_wins_over_everything() {
    let mut game = minesweeper::game::Game::with_minefield(water_field(2, 2));
    let mut input = quiet_input();
    input.exit = true;
    input.open = true;
    assert!(game.update(&input));
    assert!(!game.is_game_over());
    assert!(!game.is_won());
    assert_eq!(
        CellState::Closed,
        game.field().get(&Point2D(0, 0)).unwrap().state
    );
}

#[test]
fn game_opening_a_mine_loses_and_reveals() {
    let mut data = Vec2D::sized(&Size2D(2, 1), Cell::default());
    data.get_mut(&Point2D(0, 0)).unwrap().cell_type = CellType::Mine;
    let mut game = minesweeper::game::Game::with_minefield(Minefield::with_data(data));
    let mut input = quiet_input();
    input.open = true;
    assert!(!game.update(&input));
    assert!(game.is_game_over());
    assert!(!game.is_won());
    assert_eq!(CellState::Opened, game.field().get(&Point2D(1, 0)).unwrap().state);
}

#[test]
fn game_opening_last_water_wins() {
    let mut data = Vec2D::sized(&Size2D(2, 1), Cell::default());
    data.get_mut(&Point2D(1, 0)).unwrap().cell_type = CellType::Mine;
    let mut game = minesweeper::game::Game::with_minefield(Minefield::with_data(data));
    let mut input = quiet_input();
    input.open = true;
    assert!(!game.update(&input));
    assert!(game.is_won());
    assert!(!game.is_game_over());
}

#[test]
fn game_cursor_moves_and_clamps() {
    let mut game = minesweeper::game::Game::with_minefield(water_field(3, 2));
    let mut input = quiet_input();
    input.right = true;
    game.update(&input);
    game.update(&input);
    game.update(&input);
    assert_eq!(&Point2D(2, 0), game.cursor());
    input.right = false;
    input.down = true;
    game.update(&input);
    game.update(&input);
    assert_eq!(&Point2D(2, 1), game.cursor());
    input.down = false;
    input.left = true;
    input.up = true;
    game.update(&input);
    assert_eq!(&Point2D(1, 0), game.cursor());
}

#[test]
fn game_ignores_input_after_the_end() {
    let mut data = Vec2D::sized(&Size2D(2, 1), Cell::default());
    data.get_mut(&Point2D(0, 0)).unwrap().cell_type = CellType::Mine;
    let mut game = minesweeper::game::Game::with_minefield(Minefield::with_data(data));
    let mut input = quiet_input();
    input.open = true;
    game.update(&input);
    assert!(game.is_game_over());
    let mut flag_input = quiet_input();
    flag_input.flag = true;
    flag_input.right = true;
    game.update(&flag_input);
    assert_eq!(&Point2D(0, 0), game.cursor());
    assert_eq!(CellState::Opened, game.field().get(&Point2D(1, 0)).unwrap().state);
}
