//! The speaking order of a moderated discussion.
//!
//! A discussion is a queue of new points, each followed by a block of
//! responses. Entries are placed under a priority mode, the floor moves
//! forwards and backwards through the order, and a clock charges each second
//! to whoever is speaking.
//!
//! - [`discussion`] is the engine: taking speeches, moving the floor, the
//!   clock and the resort. Its submodule `model` says what each operation
//!   makes of a discussion as a mathematical value, and `laws` what holds
//!   of the operations together.
//! - [`speech`] holds the speakers and their turns.
//! - [`stable_order`] and [`tally`] are the theory behind the resort.
//! - [`list_extra`] places items in a list before the first that meets a
//!   condition.
//! - [`report`], [`messages`], [`format_duration`] and [`html_table`] show
//!   a discussion to the outside.

pub mod discussion;
pub mod format_duration;
pub mod html_table;
pub mod list_extra;
pub mod messages;
pub mod report;
pub mod speech;
pub mod stable_order;
pub mod tally;
