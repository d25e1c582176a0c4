pub mod cursor_history;
