pub mod lex;
pub mod toolbox;

pub use lex::number::{LexNumberValue, NumberModel};
pub use lex::state::{ChunkSource, LexStatus, NoMoreInput};
pub use lex::token::LexToken;
pub use lex::LexState;
pub use toolbox::prng::{Prng, PrngState};
pub use toolbox::tag_value::TagValue;
