//! How the symbols of a source come from its declarations.

use crate::folding::{
    code_regions_from, node_fold_kind, CodeLanguage, FoldKind, RawRegion, WorkBudget,
};
use crate::source::{lines_of, range_at};
use crate::structure::{
    descriptor_of, enclosing, symbol_step, ActiveSymbol, StructureLimits, SymbolState,
};
use crate::syntax::{is_listing, NodeRecord};
use crate::text::slice_at;
use vstd::prelude::*;

verus! {

/// The symbols around a node are those that were declared less deep.
pub proof fn law_deeper_symbols_are_left(active: Seq<ActiveSymbol>, depth: usize)
    ensures
        ({
            let left = enclosing(active, depth);
            &&& left.len() <= active.len()
            &&& left == active.take(left.len() as int)
            &&& left.len() > 0 ==> left.last().depth < depth
            &&& forall|i: int| left.len() <= i < active.len() ==> (#[trigger] active[i]).depth >= depth
        }),
    decreases active.len(),
{
    if active.len() > 0 && active.last().depth >= depth {
        let front = active.drop_last();
        law_deeper_symbols_are_left(front, depth);
        let left = enclosing(active, depth);
        assert(left =~= active.take(left.len() as int));
        assert forall|i: int| left.len() <= i < active.len() implies (#[trigger] active[i]).depth
            >= depth by {
            if i < front.len() {
                assert(front[i] == active[i]);
            }
        }
    } else {
        assert(active.take(active.len() as int) =~= active);
    }
}

/// A node that declares nothing adds no symbol. One that declares something adds one, with
/// the words of its name, the range of the whole and the range of the name; a broken one
/// spoils the source.
pub proof fn law_declarations_are_symbols(
    source: Seq<u8>,
    starts: Seq<usize>,
    language: CodeLanguage,
    limits: StructureLimits,
    nodes: Seq<NodeRecord>,
    i: int,
    state: SymbolState,
)
    ensures
        ({
            let found = descriptor_of(language, nodes, i, enclosing(state.active, nodes[i].depth));
            let after = symbol_step(source, starts, language, limits, nodes, i, state);
            &&& found is None || (nodes[i].name is None && !nodes[i].error && !nodes[i].missing)
                ==> after is Some && after->0.symbols == state.symbols
            &&& found is Some && (nodes[i].error || nodes[i].missing) ==> after is None
            &&& found is Some && nodes[i].name is Some && after is Some ==> {
                let symbols = after->0.symbols;
                let name = nodes[i].name->0;
                &&& !name.error && !name.missing
                &&& symbols.len() == state.symbols.len() + 1
                &&& symbols.drop_last() == state.symbols
                &&& symbols.last().kind == found->0.kind
                &&& slice_at(source, name.start as int, name.end as int) == Some(
                    symbols.last().name,
                )
                &&& range_at(source, starts, nodes[i].start as int, nodes[i].end as int) == Some(
                    symbols.last().range,
                )
                &&& range_at(source, starts, name.start as int, name.end as int) == Some(
                    symbols.last().selection_range,
                )
            }
        }),
{
    let after = symbol_step(source, starts, language, limits, nodes, i, state);
    if after is Some && after->0.symbols.len() > state.symbols.len() {
        assert(after->0.symbols.drop_last() =~= state.symbols);
    }
}

/// The region is that of the node at this place: it is sound, it folds as this kind, and it
/// begins and ends on these lines.
pub open spec fn is_region_of(
    nodes: Seq<NodeRecord>,
    source_len: int,
    starts: Seq<usize>,
    language: CodeLanguage,
    at: int,
    budget: WorkBudget,
    region: RawRegion,
) -> bool {
    &&& 0 <= at < nodes.len()
    &&& !nodes[at].error && !nodes[at].missing
    &&& node_fold_kind(language, nodes, at, budget) is Some
    &&& (node_fold_kind(language, nodes, at, budget)->0).0 == Some(region.kind)
    &&& lines_of(nodes[at].start as int, nodes[at].end as int, source_len, starts) is Some
    &&& ({
        let lines = lines_of(nodes[at].start as int, nodes[at].end as int, source_len, starts)->0;
        region.start_line == lines.0 as usize && region.end_line == lines.1 as usize
    })
}

proof fn lemma_region_comes_from(
    nodes: Seq<NodeRecord>,
    i: int,
    source_len: int,
    starts: Seq<usize>,
    language: CodeLanguage,
    max_nodes: usize,
    budget: WorkBudget,
    region: RawRegion,
) -> (found: (int, WorkBudget))
    requires
        0 <= i,
        code_regions_from(nodes, i, source_len, starts, language, max_nodes, budget) is Some,
        code_regions_from(
            nodes,
            i,
            source_len,
            starts,
            language,
            max_nodes,
            budget,
        )->0.contains(region),
    ensures
        is_region_of(nodes, source_len, starts, language, found.0, found.1, region),
    decreases nodes.len() - i,
{
    let all = code_regions_from(nodes, i, source_len, starts, language, max_nodes, budget)->0;
    let k = choose|k: int| 0 <= k < all.len() && all[k] == region;
    if i >= nodes.len() {
        assert(all.len() == 0);
        (0, budget)
    } else {
        let node = nodes[i];
        let kind = if node.error || node.missing {
            Some((None::<FoldKind>, budget.stepped()))
        } else {
            node_fold_kind(language, nodes, i, budget.stepped())
        };
        let left = (kind->0).1;
        let rest = code_regions_from(nodes, i + 1, source_len, starts, language, max_nodes, left)->0;
        if is_region_of(nodes, source_len, starts, language, i, budget.stepped(), region) {
            (i, budget.stepped())
        } else {
            assert(rest.contains(region)) by {
                let front = all.len() - rest.len();
                assert(k >= front);
                assert(rest[k - front] == region);
            }
            lemma_region_comes_from(
                nodes,
                i + 1,
                source_len,
                starts,
                language,
                max_nodes,
                left,
                region,
            )
        }
    }
}

proof fn lemma_region_is_found(
    nodes: Seq<NodeRecord>,
    i: int,
    source_len: int,
    starts: Seq<usize>,
    language: CodeLanguage,
    max_nodes: usize,
    budget: WorkBudget,
    at: int,
    other: WorkBudget,
    region: RawRegion,
)
    requires
        0 <= i <= at,
        !(language is Python),
        code_regions_from(nodes, i, source_len, starts, language, max_nodes, budget) is Some,
        is_region_of(nodes, source_len, starts, language, at, other, region),
    ensures
        code_regions_from(
            nodes,
            i,
            source_len,
            starts,
            language,
            max_nodes,
            budget,
        )->0.contains(region),
    decreases nodes.len() - i,
{
    let all = code_regions_from(nodes, i, source_len, starts, language, max_nodes, budget)->0;
    let node = nodes[i];
    let kind = if node.error || node.missing {
        Some((None::<FoldKind>, budget.stepped()))
    } else {
        node_fold_kind(language, nodes, i, budget.stepped())
    };
    let left = (kind->0).1;
    let rest = code_regions_from(nodes, i + 1, source_len, starts, language, max_nodes, left)->0;
    if i == at {
        assert(all[0] == region);
    } else {
        lemma_region_is_found(
            nodes,
            i + 1,
            source_len,
            starts,
            language,
            max_nodes,
            left,
            at,
            other,
            region,
        );
        let k = choose|k: int| 0 <= k < rest.len() && rest[k] == region;
        let front = all.len() - rest.len();
        assert(all[front + k] == region);
    }
}

/// Where the regions of a source can be found, each is that of a sound node that folds.
pub proof fn law_regions_are_those_of_nodes(
    nodes: Seq<NodeRecord>,
    source_len: int,
    starts: Seq<usize>,
    language: CodeLanguage,
    max_nodes: usize,
    budget: WorkBudget,
    region: RawRegion,
)
    requires
        code_regions_from(nodes, 0, source_len, starts, language, max_nodes, budget) is Some,
    ensures
        ({
            let regions = code_regions_from(
                nodes,
                0,
                source_len,
                starts,
                language,
                max_nodes,
                budget,
            )->0;
            regions.contains(region) ==> exists|at: int, left: WorkBudget| #[trigger]
                is_region_of(nodes, source_len, starts, language, at, left, region)
        }),
{
    if code_regions_from(
        nodes,
        0,
        source_len,
        starts,
        language,
        max_nodes,
        budget,
    )->0.contains(region) {
        let found = lemma_region_comes_from(
            nodes,
            0,
            source_len,
            starts,
            language,
            max_nodes,
            budget,
            region,
        );
    }
}

/// Where the regions of a source can be found, every sound node that folds has its own.
/// What a function of Python folds as is looked for around it, within the same bounds.
pub proof fn law_nodes_that_fold_have_regions(
    nodes: Seq<NodeRecord>,
    source_len: int,
    starts: Seq<usize>,
    language: CodeLanguage,
    max_nodes: usize,
    budget: WorkBudget,
    at: int,
    other: WorkBudget,
    region: RawRegion,
)
    requires
        !(language is Python),
        code_regions_from(nodes, 0, source_len, starts, language, max_nodes, budget) is Some,
        is_region_of(nodes, source_len, starts, language, at, other, region),
    ensures
        code_regions_from(
            nodes,
            0,
            source_len,
            starts,
            language,
            max_nodes,
            budget,
        )->0.contains(region),
{
    lemma_region_is_found(
        nodes,
        0,
        source_len,
        starts,
        language,
        max_nodes,
        budget,
        at,
        other,
        region,
    );
}

/// Without a limit on the work, the regions of a source can be found if it has no more nodes
/// than are looked at.
pub proof fn law_only_limits_hide_regions(
    nodes: Seq<NodeRecord>,
    source_len: int,
    starts: Seq<usize>,
    language: CodeLanguage,
    max_nodes: usize,
)
    requires
        is_listing(nodes),
        !(language is Python),
    ensures
        code_regions_from(
            nodes,
            0,
            source_len,
            starts,
            language,
            max_nodes,
            WorkBudget { used: 0, cancel_after: None },
        ) is Some <==> nodes.len() <= max_nodes,
{
    lemma_regions_found(
        nodes,
        0,
        source_len,
        starts,
        language,
        max_nodes,
        WorkBudget { used: 0, cancel_after: None },
    );
}

proof fn lemma_regions_found(
    nodes: Seq<NodeRecord>,
    i: int,
    source_len: int,
    starts: Seq<usize>,
    language: CodeLanguage,
    max_nodes: usize,
    budget: WorkBudget,
)
    requires
        0 <= i <= nodes.len(),
        !(language is Python),
        budget.cancel_after is None,
    ensures
        code_regions_from(nodes, i, source_len, starts, language, max_nodes, budget) is Some <==> (
        i == nodes.len() || nodes.len() <= max_nodes),
    decreases nodes.len() - i,
{
    if i < nodes.len() {
        lemma_regions_found(
            nodes,
            i + 1,
            source_len,
            starts,
            language,
            max_nodes,
            budget.stepped(),
        );
    }
}

} // verus!
