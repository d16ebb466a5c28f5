pub mod commands;
pub mod date;
pub mod month_view;
pub mod session;
pub mod task;
pub mod task_edit;
pub mod text;
pub mod undo;
