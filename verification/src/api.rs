//! The versioned API surface of the convertor.

pub mod v1;
