pub mod chr;
pub mod prng;
pub mod tag_value;
