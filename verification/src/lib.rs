//! A minimal content-addressed version-control core: loose objects, trees,
//! commits, pack decoding with reference deltas, and the parsing side of a
//! smart-HTTP fetch. All state lives in in-memory byte buffers; the thin
//! binary around this crate moves those buffers to and from disk and the
//! network.
mod arg_parse;
mod commands;
mod errors;
mod git;
mod git_object;
mod git_pack;
mod hashing;
mod reader_utils;
mod text;
mod zlib;

pub use arg_parse::{
    Args, CatFileArgs, CloneArgs, Command, CommitTreeArgs, HashObjectArgs, LsTreeArgs,
};
pub use errors::GitError;
pub use commands::{
    build_want_body, cat_file, cat_file_ok, cat_file_output, commit_inputs_ok, commit_outcome,
    commit_payload, commit_tree, commit_written, hash_object, identity_line, listable_at,
    adv_branch_of, adv_head_hash_of, adv_head_line_at, adv_head_line_pos, adv_line_at,
    adv_matched, adv_ref_line_match, commit_text, head_ref_chars, identity_line_text,
    last_slash_suffix, lemma_commit_payload_text, listed_tree_at, ls_tree, ls_tree_ok,
    ls_tree_output, parse_ref_advertisement, payload_text_at, pkt_line_ok, pkt_reach, pkt_step,
    printable_at, second_field_at, second_field_found, stringify_tree, strip_nl, tree_line,
    tree_listing,
};
pub use git_object::{
    can_resolve, frame_object, frame_spec, full_hash, get_type, header_parsed, header_valid,
    header_fn, identify_header, kind_of_chars, lemma_full_hex_resolves, lemma_header_fn_iff,
    lemma_header_parsed_unique, lemma_hex40_resolution, lemma_prefix_ambiguous,
    lemma_prefix_resolves, lemma_stored_kind_unique, lemma_tree_parse_id_len,
    lemma_tree_roundtrip, lemma_write_then_read,
    lex_lt, match_count, name_matches, nodes_match, object_header_parsed, read_tree, reader,
    filter_fs, fs_entries, fs_entry, keeps_entry, lemma_nodes_snapshot_ok_iff, min_name_index,
    node_snapshot_ok, nodes_snapshot_ok, resolve_err, resolves_to, snapshot_ok,
    snapshot_payload, sort_fs, stored_kind, tree_entry_bytes, tree_entry_wf, tree_parse, work_contains,
    tree_payload, write_blob, write_commit, write_object, write_tree, write_tree_from_directory,
    FsNode, ObjectType, Store, TreeNode,
};
pub use git::{
    blob_tail, blob_tail_ok, checkout, checkout_commit_ok, checkout_commit_tree, checkout_fuel,
    checkout_ok, checkout_outcome, checkout_trim, construct_tree, head_ref_content, make_branch,
    materialize, materialize_entries, object_parse, object_tail_at, step_view, step_views,
    step_wf, CheckoutStep,
};
pub use git_pack::{
    apply_delta, copy_off_len, copy_offset, copy_size, copy_size_len, delta_applied,
    delta_base_ok, delta_front_at, delta_ok, delta_outcome, delta_run, delta_source_mismatch,
    kind_of_code, le7_val, pack_count, pack_header_val, pack_ingested, pack_magic,
    pack_plain_ok, pack_type_code, read_size, read_type_and_size,
    record_ingested, store_insert, unpack, varint_end,
};
pub use hashing::{hash_data, hex_of, hex_digit, sha1_of, to_hex};
pub use reader_utils::{
    read_byte, read_git_pack_line, read_n_bytes, read_to_next_null_byte, ByteReader,
};
pub use zlib::{compress_object, decompress_object, deflate_of, inflate_of};
pub use text::{lemma_decode_concat};
