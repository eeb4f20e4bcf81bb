//! A growable byte buffer whose references to positions in its own content
//! follow their elements as the buffer grows.

mod buffer;
mod edit;

pub use buffer::{
    keeps_tracked_bytes, lemma_edit_keeps_reference, lemma_insert_at_reference_pushes_forward, IndexRef,
    IndexRefBuf,
};
pub use edit::{
    edit_valid, edits_avoid, edits_valid, growth, lemma_growth_is_monotonic, lemma_reference_stable,
    lemma_single_edit_keeps_element, moved, moves_fit, positions_moved, replay_content,
    replay_position, spliced, total_growth, Edit,
};
