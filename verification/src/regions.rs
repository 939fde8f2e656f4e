//! Region scanning: marker search, tag extraction, attribute scanning and the
//! region state machine, from the leaves up.

pub mod span;
pub mod lang;
pub mod classes;
pub mod attrs;
pub mod find;
pub mod model;
pub mod tags;
pub mod scanner;
pub mod html;
pub mod poi;
pub mod events;
pub mod laws;
