use ono::tui::app::{App, AppError, KeyCode, KeyEvent};

fn key(code: KeyCode) -> KeyEvent {
    KeyEvent { code, control: false }
}

#[test]
fn a_new_app_holds_nothing() {
    let app = App::default();
    assert_eq!(app.counter, 0);
    assert!(!app.exit);
    assert!(app.snippets.is_empty());
}

#[test]
fn control_c_stops_the_program() {
    for c in ['c', 'C'] {
        let mut app = App::default();
        assert_eq!(app.handle_key_event(KeyEvent { code: KeyCode::Char(c), control: true }), Ok(()));
        assert!(app.exit);
        assert_eq!(app.counter, 0);
    }
    let mut app = App::default();
    assert_eq!(app.handle_key_event(key(KeyCode::Char('c'))), Ok(()));
    assert_eq!(app.handle_key_event(KeyEvent { code: KeyCode::Char('x'), control: true }), Ok(()));
    assert_eq!(app.handle_key_event(KeyEvent { code: KeyCode::Other, control: true }), Ok(()));
    assert!(!app.exit);
}

#[test]
fn the_arrows_move_the_counter() {
    let mut app = App::default();
    assert_eq!(app.handle_key_event(key(KeyCode::Right)), Ok(()));
    assert_eq!(app.handle_key_event(key(KeyCode::Right)), Ok(()));
    assert_eq!(app.counter, 2);
    assert_eq!(app.handle_key_event(key(KeyCode::Left)), Ok(()));
    assert_eq!(app.counter, 1);
    assert_eq!(app.handle_key_event(key(KeyCode::Other)), Ok(()));
    assert_eq!(app.counter, 1);
    assert!(!app.exit);
}

#[test]
fn a_counter_above_two_is_an_error() {
    let mut app = App::default();
    app.counter = 2;
    assert_eq!(app.handle_key_event(key(KeyCode::Right)), Err(AppError::CounterOverflow));
    assert_eq!(app.counter, 3);
    assert_eq!(app.increment_counter(), Err(AppError::CounterOverflow));
    assert_eq!(app.counter, 4);
    assert_eq!(app.decrement_counter(), Ok(()));
    assert_eq!(app.counter, 3);
    app.exit();
    assert!(app.exit);
}
