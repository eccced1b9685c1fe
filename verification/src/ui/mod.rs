pub mod browser;
pub mod dialogs;
pub mod editor;
pub mod term;
