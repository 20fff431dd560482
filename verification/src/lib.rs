//! A desktop to-do list: civil dates and times, the task and settings file
//! formats, and weekly summary text.
pub mod calendar;
pub mod text;
pub mod datetime;
pub mod order;
pub mod store;
pub mod summary;
pub mod win32;
pub mod board;
pub mod colors;
pub mod widget;
pub mod forms;
