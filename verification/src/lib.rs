pub mod position;
pub mod text;
pub mod theme;
pub mod ui;
