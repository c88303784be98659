pub mod cli;
pub mod columns;
pub mod formatter;
pub mod idempotence;
pub mod literals;
pub mod properties;
pub mod syntax;
pub mod text;
