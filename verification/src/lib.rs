pub mod bidi;
pub mod reshaper;
pub mod terminal;
pub mod text;
pub mod text_processor;
