pub mod analyzer;
pub mod csv;
pub mod table;
pub mod text;
