//! Type resolution and binary dispatch for bindings generated from an
//! Anchor interface definition: the schema model, layout option assignment,
//! default-constructibility analysis, discriminants and payload decoding.

pub mod options;
pub mod schema;
pub mod analysis;
pub mod discriminant;
pub mod dispatch;
pub mod account;
pub mod program;
pub mod codec;
pub mod laws;
pub mod layout;
