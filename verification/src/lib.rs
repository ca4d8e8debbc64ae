//! Structural diffing and patching of JSON-like documents, after RFC 6901
//! (JSON Pointer) and RFC 6902 (JSON Patch).

use vstd::prelude::*;

mod apply;
mod diff;
mod errors;
mod laws;
mod op;
mod path;
mod value;

pub use apply::add_at;
pub use apply::apply_op;
pub use apply::get_at;
pub use apply::patch;
pub use apply::remove_at;
pub use apply::replace_at;
pub use apply::spec_add;
pub use apply::spec_apply;
pub use apply::spec_apply_op;
pub use apply::spec_get;
pub use apply::spec_remove;
pub use apply::spec_replace;
pub use diff::diff;
pub use diff::diff_arr_add;
pub use diff::diff_arr_com;
pub use diff::diff_arr_del;
pub use diff::diff_obj_left;
pub use diff::diff_obj_right;
pub use diff::diff_ops;
pub use errors::PatchError;
pub use laws::lemma_apply_concat;
pub use laws::lemma_dec_str_reads_back;
pub use laws::lemma_diff_self;
pub use laws::lemma_round_trip_whole;
pub use laws::lemma_empty_patch;
pub use laws::lemma_obj_get_at;
pub use laws::lemma_test_op;
pub use op::Op;
pub use op::Patch;
pub use op::SpecOp;
pub use op::ops_view;
pub use path::IndexToken;
pub use path::Path;
pub use path::dec_str;
pub use path::digits_val;
pub use path::fmt_index;
pub use path::is_dash;
pub use path::is_digits;
pub use path::parse_index;
pub use path::seg_index;
pub use path::segs_view;
pub use path::spec_encode;
pub use path::spec_parse_pointer;
pub use path::parse_pointer;
pub use path::encode_pointer;
pub use path::path_child;
pub use path::clone_path;
pub use value::SpecValue;
pub use value::Value;
pub use value::arr_view;
pub use value::deep_clone;
pub use value::lex_lt;
pub use value::obj_del;
pub use value::obj_get;
pub use value::obj_set;
pub use value::obj_view;
pub use value::sorted_keys;
pub use value::value_eq;

verus! {

} // verus!
