//! What is said of an index file.

use vstd::prelude::*;
use vstd::string::StringExecFns;

use crate::index::specialist::IndexMetadata;
use crate::text;

verus! {

/// The line about an index file: a JSON object.
pub open spec fn info_text(path: Seq<char>, bytes: nat, metadata: IndexMetadata) -> Seq<char> {
    "{\"path\":\""@ + path + "\",\"file_bytes\":"@ + text::decimal(bytes) + ",\"references\":"@
        + text::decimal(metadata.reference_count as nat) + ",\"partitions\":"@ + text::decimal(
        metadata.partition_count as nat,
    ) + ",\"nodes\":"@ + text::decimal(metadata.node_count as nat) + ",\"blocks\":"@
        + text::decimal(metadata.block_count as nat) + "}"@
}

/// Writes the line about an index file.
pub fn info_line(path: &str, bytes: u64, metadata: &IndexMetadata) -> (r: String)
    ensures
        r@ == info_text(path@, bytes as nat, *metadata),
{
    let mut r = String::from_str("{\"path\":\"");
    r.append(path);
    r.append("\",\"file_bytes\":");
    text::push_decimal(&mut r, bytes);
    r.append(",\"references\":");
    text::push_decimal(&mut r, metadata.reference_count as u64);
    r.append(",\"partitions\":");
    text::push_decimal(&mut r, metadata.partition_count as u64);
    r.append(",\"nodes\":");
    text::push_decimal(&mut r, metadata.node_count as u64);
    r.append(",\"blocks\":");
    text::push_decimal(&mut r, metadata.block_count as u64);
    r.append("}");
    r
}

} // verus!
