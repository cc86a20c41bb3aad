//! A dynamically typed JSON value model with a recursive-descent parser,
//! a compact/pretty serializer and a dotted-path accessor.

mod laws;
mod num;
mod parser;
mod path;
mod roundtrip;
mod ser;
mod text;
mod utils;
mod value;

// The value model: the JSON type, the object container, their mathematical
// model and the spec functions the contracts are stated over.
pub use value::JVal;
pub use value::JsonObject;
pub use value::JsonType;
pub use value::arr_eq;
pub use value::jarr_of;
pub use value::jobj_of;
pub use value::jval_of;
pub use value::lemma_obj_lookup_at;
pub use value::lemma_obj_lookup_none;
pub use value::obj_insert;
pub use value::obj_lookup;
pub use value::obj_remove;
pub use value::obj_sub;
pub use value::unique_keys;
pub use value::val_eq;
pub use value::wf;
pub use value::wf_arr;
pub use value::wf_obj;

// The scanner utilities and their specifications.
pub use utils::backslash_run;
pub use utils::is_valid_ending_quote;
pub use utils::match_literal;
pub use utils::nearby_content;
pub use utils::parse_error;
pub use utils::skip_chars;
pub use utils::skip_spaces;
pub use utils::skip_util_char;
pub use utils::space_chars;
pub use utils::spec_context;
pub use utils::spec_match_literal;
pub use utils::spec_skip_until;
pub use utils::spec_skip_while;
pub use utils::spec_valid_ending_quote;

// Number literals and their canonical decimal form.
pub use num::is_digit;
pub use num::is_num_char;
pub use num::num_canon;
pub use num::num_text_valid;
pub use num::spec_canon_num;

// The parser and its specification.
pub use parser::PRes;
pub use parser::arr_debris;
pub use parser::num_end;
pub use parser::obj_debris;
pub use parser::parse;
pub use parser::sp_arr_items;
pub use parser::sp_obj_items;
pub use parser::sp_value;
pub use parser::spec_parse;
pub use parser::string_close;

// The serializer and its specification.
pub use ser::ser_fits;
pub use ser::serialize;
pub use ser::spaces;
pub use ser::sser;
pub use ser::sser_arr;
pub use ser::sser_obj;

// The dotted-path accessor and its specification.
pub use path::PathRes;
pub use path::all_digits;
pub use path::digits_value;
pub use path::sget;
pub use path::spec_parse_index;

// The laws the library states of itself.
pub use laws::lemma_insert_overwrite;
pub use laws::lemma_object_eq_order_independent;
pub use laws::lemma_val_eq_refl;
pub use roundtrip::key_safe;
pub use roundtrip::lemma_compact_round_trip;
pub use roundtrip::lemma_pretty_round_trip;
pub use roundtrip::round_trip_safe;
pub use roundtrip::rt_arr;
pub use roundtrip::rt_obj;
pub use roundtrip::str_embeddable;
pub use roundtrip::tail_end;
