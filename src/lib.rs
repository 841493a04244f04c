//! Core of a remote tracing console.
//!
//! - `registry`: the subscriber's span ids, reference counts and free-list.
//! - `broadcast`: the aggregator's fan-out to attached consoles.
//! - `messages`: the wire messages and the text of field values.
//! - `store`: the console's store, with internal ids that are never reused.
//! - `filter`, `command`: modifiers, grouping, and the command grammar.
//! - `layout`, `ui`: the rows of the event list and the widgets' decisions.
//! - `local`: a store for a console inside the traced process.
//! - `text`: character-level helpers.
pub mod broadcast;
pub mod registry;
pub mod text;
pub mod messages;
pub mod store;
pub mod filter;
pub mod layout;
pub mod local;
pub mod command;
pub mod ui;
