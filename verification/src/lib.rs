pub mod num;
pub mod parse;
pub mod record;
pub mod report;
pub mod scan;
pub mod signal;
pub mod text;
