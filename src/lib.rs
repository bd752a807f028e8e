pub mod client;
pub mod content;
pub mod text_markup;
pub mod utf16;
pub mod render_lemmas;
pub mod nesting;
