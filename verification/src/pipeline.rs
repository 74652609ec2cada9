use vstd::prelude::*;
use crate::extract::{extract_blocks, spec_extract_blocks};
use crate::matching::spec_label;
use crate::reconcile::{align_blocks, spec_current_out, spec_source_out};
use crate::text::{join_blocks, spec_joined};

verus! {

/// The whole comparison core: extract the blocks of both documents,
/// match every current block to its best source block, reconcile the
/// two sides into equal-length parallel sequences, and serialize each
/// side as a blank-line-separated text body, source first.
pub fn cdiff_texts(source_html: &str, current_html: &str) -> (r: (String, String))
    ensures
        ({
            let sb = spec_extract_blocks(source_html@);
            let cb = spec_extract_blocks(current_html@);
            let lab = spec_label(sb, cb);
            &&& r.0@ == spec_joined(spec_source_out(sb, lab))
            &&& r.1@ == spec_joined(spec_current_out(sb, lab))
        }),
{
    let source_blocks = extract_blocks(source_html);
    let current_blocks = extract_blocks(current_html);
    let (source_out, current_out) = align_blocks(&source_blocks, &current_blocks);
    let source_text = join_blocks(&source_out);
    let current_text = join_blocks(&current_out);
    (source_text, current_text)
}

} // verus!
