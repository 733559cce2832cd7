pub mod calendar;
pub mod calendar_view;
pub mod cli;
pub mod colors;
pub mod commands;
pub mod dates;
pub mod highlight;
pub mod list_view;
pub mod listing;
pub mod model;
pub mod repeat;
pub mod session;
pub mod ordering;
pub mod text;
