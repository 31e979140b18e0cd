//! Text mappers that prepare chat messages for text-to-speech.
pub mod text;
pub mod native_korean;
pub mod sino_korean;
pub mod mapper;
pub mod korean_counting;
pub mod noise;
pub mod supertonic_block;
pub mod patterns;
pub mod remove_parentheses;
pub mod remove_url;
pub mod remove_code_block;
pub mod process_markdown;
pub mod emoji_replacer;
pub mod replace_mention;
pub mod unicode_emoji;
