//! The state of the interactive program and how a key changes it.

use crate::store::Snippet;
use vstd::prelude::*;

verus! {

/// The keys that the program tells apart.
#[derive(Debug, Clone, Copy, PartialEq, Eq, Structural)]
pub enum KeyCode {
    Char(char),
    Left,
    Right,
    Other,
}

/// A key event: the key, and whether the control key, and no other modifier,
/// was held with it.
#[derive(Debug, Clone, Copy, PartialEq, Eq, Structural)]
pub struct KeyEvent {
    pub code: KeyCode,
    pub control: bool,
}

/// Why a key could not be handled.
#[derive(Debug, Clone, Copy, PartialEq, Eq, Structural)]
pub enum AppError {
    /// The counter has left its range of 0 to 2.
    CounterOverflow,
}

/// The state of the program.
#[derive(Debug)]
pub struct App {
    pub counter: u8,
    pub exit: bool,
    pub snippets: Vec<Snippet>,
}

impl Default for App {
    fn default() -> (app: App)
        ensures
            app.counter == 0,
            !app.exit,
            app.snippets@.len() == 0,
    {
        App { counter: 0, exit: false, snippets: Vec::new() }
    }
}

/// Whether the event asks the program to stop: `c` or `C` with control.
pub open spec fn asks_to_exit(event: KeyEvent) -> bool {
    event.control && (event.code == KeyCode::Char('c') || event.code == KeyCode::Char('C'))
}

impl App {
    /// Changes the state as the key asks: control with `c` stops the program,
    /// the left arrow lowers the counter and the right arrow raises it. Any
    /// other key changes nothing. Raising the counter above 2 is an error.
    pub fn handle_key_event(&mut self, key_event: KeyEvent) -> (result: Result<(), AppError>)
        requires
            key_event.code is Left ==> old(self).counter > 0,
            key_event.code is Right ==> old(self).counter < u8::MAX,
        ensures
            final(self).snippets == old(self).snippets,
            final(self).exit == (old(self).exit || asks_to_exit(key_event)),
            final(self).counter == if asks_to_exit(key_event) {
                old(self).counter as int
            } else {
                match key_event.code {
                    KeyCode::Left => old(self).counter - 1,
                    KeyCode::Right => old(self).counter + 1,
                    _ => old(self).counter as int,
                }
            },
            result is Err <==> key_event.code is Right && old(self).counter >= 2,
            result is Err ==> result == Err::<(), AppError>(AppError::CounterOverflow),
    {
        match key_event.code {
            KeyCode::Char(c) => {
                if (c == 'c' || c == 'C') && key_event.control {
                    self.exit();
                }
                Ok(())
            },
            KeyCode::Left => self.decrement_counter(),
            KeyCode::Right => self.increment_counter(),
            KeyCode::Other => Ok(()),
        }
    }

    /// Asks the program to stop.
    pub fn exit(&mut self)
        ensures
            final(self).exit,
            final(self).counter == old(self).counter,
            final(self).snippets == old(self).snippets,
    {
        self.exit = true;
    }

    /// Lowers the counter by one.
    pub fn decrement_counter(&mut self) -> (result: Result<(), AppError>)
        requires
            old(self).counter > 0,
        ensures
            result is Ok,
            final(self).counter == old(self).counter - 1,
            final(self).exit == old(self).exit,
            final(self).snippets == old(self).snippets,
    {
        self.counter -= 1;
        Ok(())
    }

    /// Raises the counter by one. A counter above 2 is an error; the counter
    /// keeps its new value all the same.
    pub fn increment_counter(&mut self) -> (result: Result<(), AppError>)
        requires
            old(self).counter < u8::MAX,
        ensures
            final(self).counter == old(self).counter + 1,
            final(self).exit == old(self).exit,
            final(self).snippets == old(self).snippets,
            result == if final(self).counter > 2 {
                Err::<(), AppError>(AppError::CounterOverflow)
            } else {
                Ok::<(), AppError>(())
            },
    {
        self.counter += 1;
        if self.counter > 2 {
            return Err(AppError::CounterOverflow);
        }
        Ok(())
    }
}

} // verus!
