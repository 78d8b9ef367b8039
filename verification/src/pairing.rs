use vstd::prelude::*;

use crate::paths::{common_prefix_len, common_prefix_len_exec, stem_of, stem_of_path};

verus! {

/// The pairing key of an image path and a label path: the length of the
/// shared leading run of their file stems.
pub open spec fn pair_key(image_path: Seq<u8>, label_path: Seq<u8>) -> nat {
    common_prefix_len(stem_of(image_path), stem_of(label_path))
}

/// Picks the label path that best matches the image path: the index of a
/// candidate whose stem shares the longest leading run with the image's stem.
/// Among candidates tied at that length, the last one in the list wins, so on
/// an ascending list the lexicographically greatest tied path is chosen.
pub fn pick_label(image_path: &Vec<u8>, label_paths: &Vec<Vec<u8>>) -> (r: usize)
    requires
        label_paths@.len() > 0,
    ensures
        r < label_paths@.len(),
        forall|j: int|
            0 <= j < label_paths@.len() ==> pair_key(image_path@, #[trigger] label_paths@[j]@)
                <= pair_key(image_path@, label_paths@[r as int]@),
        forall|j: int|
            r < j < label_paths@.len() ==> pair_key(image_path@, #[trigger] label_paths@[j]@)
                < pair_key(image_path@, label_paths@[r as int]@),
{
    let image_stem = stem_of_path(image_path);
    let first_stem = stem_of_path(&label_paths[0]);
    let mut best: usize = 0;
    let mut best_key: usize = common_prefix_len_exec(&image_stem, &first_stem);
    let mut j: usize = 1;
    while j < label_paths.len()
        invariant
            1 <= j <= label_paths@.len(),
            best < j,
            image_stem@ == stem_of(image_path@),
            best_key as int == pair_key(image_path@, label_paths@[best as int]@),
            forall|t: int|
                0 <= t < j ==> pair_key(image_path@, #[trigger] label_paths@[t]@) <= best_key,
            forall|t: int|
                best < t < j ==> pair_key(image_path@, #[trigger] label_paths@[t]@) < best_key,
        decreases label_paths@.len() - j,
    {
        let candidate_stem = stem_of_path(&label_paths[j]);
        let key = common_prefix_len_exec(&image_stem, &candidate_stem);
        if key >= best_key {
            best = j;
            best_key = key;
        }
        j = j + 1;
    }
    best
}

} // verus!
