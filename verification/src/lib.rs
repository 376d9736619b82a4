//! A small task tracker: tasks carry a description, a priority class and a
//! completion flag; the manager keeps them sorted by priority then id,
//! completes them by id or by consuming the first pending task of a class,
//! and round-trips the whole collection through a JSON text document.

pub mod codec;
pub mod task;
