//! Named string variables, kept in a store and in `.env` files.
//!
//! - [`envfile`] reads the variables of an env file from its text, writes
//!   them out grouped by the prefix of their key and sorted, and adds a
//!   variable. [`envfile_facts`] proves what holds of these: a sorted file
//!   stays as it is when it is sorted again, and a file without variables is
//!   left alone.
//! - [`group`] groups and sorts keys; [`group_facts`] proves that the groups
//!   are in order, how many there are, and that there is one way only to
//!   group and sort.
//! - [`store`] turns names and values into the bytes that a store keeps, and
//!   back. [`store_facts`] proves that keys in the order of their bytes are
//!   names in dictionary order.
//! - [`command`] works out what the commands of the tool are given.
//! - [`entry`], [`order`] and [`text`] hold what these are built from: one
//!   variable, the dictionary order, and the search for a character.

pub mod command;
pub mod entry;
pub mod envfile;
pub mod envfile_facts;
pub mod group;
pub mod group_facts;
pub mod order;
pub mod store;
pub mod store_facts;
pub mod text;
