pub mod focus_list;
pub mod result_list;
pub mod slot_list;
pub mod color;
pub mod editor;
