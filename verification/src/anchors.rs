//! How folds are found again.

use crate::folding::{
    fnv, fold_tree, header_hash, in_order, nested, occurrences, RawRegion,
};
use crate::text::trimmed;
use vstd::prelude::*;
use vstd::utf8::encode_utf8;

verus! {

proof fn lemma_occurs_alike(
    kept: Seq<RawRegion>,
    count: int,
    left: RawRegion,
    right: RawRegion,
    lines: Seq<String>,
)
    requires
        left.kind == right.kind,
        header_hash(left, lines) == header_hash(right, lines),
    ensures
        occurrences(kept, count, left, lines) == occurrences(kept, count, right, lines),
        0 <= occurrences(kept, count, left, lines),
        count >= 0 ==> occurrences(kept, count, left, lines) <= count,
    decreases count,
{
    if count > 0 {
        lemma_occurs_alike(kept, count - 1, left, right, lines);
    }
}

proof fn lemma_one_before(
    kept: Seq<RawRegion>,
    count: int,
    region: RawRegion,
    lines: Seq<String>,
) -> (at: int)
    requires
        occurrences(kept, count, region, lines) > 0,
    ensures
        0 <= at < count,
        kept[at].kind == region.kind,
        header_hash(kept[at], lines) == header_hash(region, lines),
        occurrences(kept, at, kept[at], lines) == occurrences(kept, count, region, lines) - 1,
    decreases count,
{
    let last = count - 1;
    if kept[last].kind == region.kind && header_hash(kept[last], lines) == header_hash(
        region,
        lines,
    ) {
        lemma_occurs_alike(kept, last, kept[last], region, lines);
        last
    } else {
        lemma_one_before(kept, last, region, lines)
    }
}

/// A fold is found again by its kind, by the hash of its first line without the blanks at the
/// ends, and by how many folds before it have both in common with it.
pub proof fn law_folds_are_numbered_by_header(
    raw: Seq<RawRegion>,
    lines: Seq<String>,
    max_regions: usize,
    i: int,
)
    requires
        0 <= i < fold_tree(raw, lines, max_regions).len() <= u32::MAX,
    ensures
        ({
            let folds = fold_tree(raw, lines, max_regions);
            let anchor = folds[i].anchor;
            &&& anchor.kind == folds[i].kind
            &&& anchor.header_hash == fnv(
                encode_utf8(trimmed(lines[folds[i].start_line as int]@)),
            )
            &&& anchor.occurrence > 0 ==> exists|j: int|
                0 <= j < i && (#[trigger] folds[j]).anchor.kind == anchor.kind
                    && folds[j].anchor.header_hash == anchor.header_hash
                    && folds[j].anchor.occurrence == anchor.occurrence - 1
        }),
{
    let folds = fold_tree(raw, lines, max_regions);
    let kept = nested(in_order(raw, lines.len() as int)).kept;
    lemma_occurs_alike(kept, i, kept[i], kept[i], lines);
    if occurrences(kept, i, kept[i], lines) > 0 {
        let j = lemma_one_before(kept, i, kept[i], lines);
        lemma_occurs_alike(kept, j, kept[j], kept[j], lines);
        assert(folds[j].anchor.kind == folds[i].anchor.kind);
    }
}

} // verus!
