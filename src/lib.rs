//! Loads `KEY=VALUE` lines of a dotenv file into an environment table.

mod laws;
mod parser;
mod table;
mod text;

pub use laws::{
    lemma_config_concat, lemma_keys_come_from_pair_lines, lemma_line_without_separator_sets_nothing,
    lemma_pair_line_sets_value, lemma_parse_idempotent,
};
pub use parser::{config_from_text, env_after, key_views, Parser};
pub use table::EnvTable;
pub use text::{
    after_last_slash, chars_of, config_of, config_of_text, ends_with_dotenv, file_name_of,
    has_pair, idx_of, is_dotenv_path, key_of, lines_of, resolve_path, split_line, trim_tail,
    value_of,
};
