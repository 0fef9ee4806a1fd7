//! A recursive-descent JSON parser and formatter.
//!
//! The parser walks the input's character sequence with a single
//! forward-only cursor and one character of lookahead, producing a
//! [`JsonValue`] tree or a descriptive [`JsonError`].  Numbers are kept
//! as their matched decimal text, so the value tree is exact; callers
//! that want a machine float convert the text themselves.

mod grammar;
mod laws;
mod parser;
mod render;
mod value;

pub use grammar::digits_end;
pub use grammar::escape_of;
pub use grammar::is_digit;
pub use grammar::is_ws_char;
pub use grammar::lemma_lex_str_rest_plain;
pub use grammar::lemma_ws_end_props;
pub use grammar::lex_exp;
pub use grammar::lex_frac;
pub use grammar::lex_number;
pub use grammar::lex_str_rest;
pub use grammar::lex_string;
pub use grammar::spec_arr_items;
pub use grammar::spec_obj_items;
pub use grammar::spec_parse_array;
pub use grammar::spec_parse_object;
pub use grammar::spec_parse_value;
pub use grammar::ws_end;
pub use laws::lemma_literals_parse_exactly;
pub use laws::lemma_render_round_trip;
pub use laws::plain_text;
pub use laws::round_trippable;
pub use parser::parse;
pub use parser::Parser;
pub use render::render_entries;
pub use render::render_items;
pub use render::render_of;
pub use value::entries_distinct;
pub use value::insert_entry;
pub use value::is_last_occurrence;
pub use value::key_in;
pub use value::lemma_insert_reflects;
pub use value::obj_reflects;
pub use value::reflects;
pub use value::JsonError;
pub use value::JsonValue;
pub use value::SpecJson;
