pub mod codec;
pub mod lines;
pub mod poem;

pub use poem::DeobfuscationError;
pub use poem::Poem;
