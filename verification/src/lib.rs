//! Rendering of user-submitted story text, comments and profile notes into a
//! tree of typed nodes, together with the records and routes of the reader.

pub mod app;
pub mod decimal;
pub mod entities;
pub mod link_laws;
pub mod linkify;
pub mod node;
pub mod parser;
pub mod sanitize;
pub mod text;
pub mod types;
pub mod util;
