//! A templating engine for documents that mix prose with named data.
//!
//! A document declares data inline (`def NAME {...}`) and refers to it from
//! the prose (`@NAME:field`). Resolving a document cuts the declarations out
//! of the text, compiles them into entities and puts the value of each
//! referenced field in the place of the reference.
//!
//! [`parse_text`] does all of it. Its steps are functions of their own:
//! [`scan_declarations`] parts the text from the declarations,
//! [`compile_entities`] builds the table of entities,
//! [`resolve_references`] resolves the text against the table, and
//! [`object_bank`] lists the fields of each entity. [`render_text`] renders
//! a resolved text for a file format.
//!
//! Each function states what it returns over the definitions of its module,
//! and [`laws`] states what follows from them for every document.

pub mod bank;
pub mod casing;
pub mod compiler;
pub mod engine;
pub mod entity;
pub mod laws;
pub mod render;
pub mod resolver;
pub mod scanner;
pub mod shell;
pub mod text;

pub use bank::{object_bank, BankEntry};
pub use compiler::{build_table, compile_block, compile_entities};
pub use engine::{parse_text, Resolved};
pub use entity::{get_field_by_name, Entity, EntityTable, Entry, Field, FieldValue};
pub use render::render_text;
pub use resolver::{resolve_references, substitute};
pub use scanner::{scan_declarations, Scan};
pub use shell::{shortcut_change, ShortcutChange};
