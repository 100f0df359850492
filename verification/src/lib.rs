pub mod ast_types;
pub mod block_tokeniser;
pub mod inline_parser;
pub mod inline_tokeniser;
pub mod props;
pub mod text;
