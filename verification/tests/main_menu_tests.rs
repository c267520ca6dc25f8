use minesweeper::game::CellType;
use minesweeper::geom::Point2D;
use minesweeper::main_menu::{MainMenu, MainMenuCursorPosition, MenuEvent, MenuInput};

fn quiet_input() -> MenuInput {
    MenuInput { up: false, down: false, confirm: false, exit: false }
}

#[test]
fn menu_cursor_cycles_down() {
    let mut c = MainMenuCursorPosition::Width;
    c = c.next();
    assert_eq!(MainMenuCursorPosition::Height, c);
    c = c.next();
    assert_eq!(MainMenuCursorPosition::MineCount, c);
    c = c.next();
    assert_eq!(MainMenuCursorPosition::StartGame, c);
    c = c.next();
    assert_eq!(MainMenuCursorPosition::Width, c);
}

#[test]
fn menu_cursor_cycles_up() {
    let mut c = MainMenuCursorPosition::Width;
    c = c.prev();
    assert_eq!(MainMenuCursorPosition::StartGame, c);
    c = c.prev();
    assert_eq!(MainMenuCursorPosition::MineCount, c);
    c = c.prev();
    assert_eq!(MainMenuCursorPosition::Height, c);
    c = c.prev();
    assert_eq!(MainMenuCursorPosition::Width, c);
}

#[test]
fn menu_defaults() {
    let menu = MainMenu::default();
    assert_eq!(MainMenuCursorPosition::StartGame, menu.cursor_position);
    assert_eq!(10, menu.width);
    assert_eq!(10, menu.height);
    assert_eq!(10, menu.mine_count);
}

#[test]
fn menu_exit_leaves_at_once() {
    let mut menu = MainMenu::default();
    let mut input = quiet_input();
    input.exit = true;
    assert!(matches!(menu.update(&input), Some(MenuEvent::Exit)));
}

#[test]
fn menu_confirm_on_start_begins_a_round() {
    let mut menu = MainMenu::default();
    let mut input = quiet_input();
    input.confirm = true;
    match menu.update(&input) {
        Some(MenuEvent::Play(game)) => {
            let mut mines = 0;
            for x in 0..10 {
                for y in 0..10 {
                    if game.field().get(&Point2D(x, y)).unwrap().cell_type == CellType::Mine {
                        mines += 1;
                    }
                }
            }
            assert_eq!(10, mines);
            assert!(!game.is_game_over());
            assert!(!game.is_won());
        },
        _ => panic!("confirming on the start entry must begin a round"),
    }
}

#[test]
fn menu_confirm_elsewhere_stays() {
    let mut menu = MainMenu::default();
    let mut input = quiet_input();
    input.up = true;
    input.confirm = true;
    assert!(menu.update(&input).is_none());
    assert_eq!(MainMenuCursorPosition::MineCount, menu.cursor_position);
}

#[test]
fn menu_rejects_unplayable_configuration() {
    let mut menu = MainMenu::default();
    menu.mine_count = 1000;
    let mut input = quiet_input();
    input.confirm = true;
    assert!(matches!(menu.update(&input), Some(MenuEvent::Rejected(_))));
}
