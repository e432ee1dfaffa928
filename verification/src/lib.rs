pub mod finder;
pub mod text;
