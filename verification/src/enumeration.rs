//! Model of level-order chunk enumeration.
//!
//! Enumeration works in passes: the pass at level `L` walks every tree of
//! the forest and gives each chunk at depth `L` the next free ordinal, in
//! encounter order.  A chunk whose subtree gained no ordinal during a pass
//! is marked complete and later passes skip it.  Passes run at levels 0,
//! 1, 2, ... until one assigns nothing.  `pass_node`, `prefix_next` and
//! `passed_forest` state what one pass does; `spec_passes` chains passes.

use vstd::prelude::*;

use crate::model::ChunkModel;
use crate::model::ContentModel;
use crate::model::kids;

verus! {

/// What one enumeration pass at `level` does to one chunk, given the next
/// free ordinal: a complete chunk is skipped; at level 0 the chunk itself
/// is numbered; otherwise the pass recurses into the children at
/// `level - 1`, and the chunk becomes complete when they yielded nothing.
pub open spec fn pass_node(c: ChunkModel, next: nat, level: nat) -> (ChunkModel, nat)
    decreases c, 0int, 0int,
{
    if c.complete {
        (c, next)
    } else if level == 0 {
        (ChunkModel { number: Some(next), ..c }, next + 1)
    } else {
        match c.content {
            ContentModel::Container { fourcc, children } => {
                let fin = prefix_next(children, children.len() as int, next, (level - 1) as nat);
                (
                    ChunkModel {
                        content: ContentModel::Container {
                            fourcc,
                            children: passed_forest(children, next, (level - 1) as nat),
                        },
                        complete: fin == next,
                        ..c
                    },
                    fin,
                )
            },
            _ => (ChunkModel { complete: true, ..c }, next),
        }
    }
}

/// The next free ordinal after one pass at `level` has handled the first
/// `j` chunks of `f`, starting from `next`.
pub open spec fn prefix_next(f: Seq<ChunkModel>, j: int, next: nat, level: nat) -> nat
    decreases f, j, 0int,
{
    if j <= 0 || j > f.len() {
        next
    } else {
        pass_node(f[j - 1], prefix_next(f, j - 1, next, level), level).1
    }
}

/// The forest after one pass at `level`, element by element: chunk `j` is
/// transformed with the ordinal counter as it stands after its earlier
/// siblings.
pub open spec fn passed_forest(f: Seq<ChunkModel>, next: nat, level: nat) -> Seq<ChunkModel>
    decreases f, f.len() + 1, 1int,
{
    Seq::new(
        f.len(),
        |j: int|
            if 0 <= j < f.len() {
                pass_node(f[j], prefix_next(f, j, next, level), level).0
            } else {
                vstd::pervasive::arbitrary()
            },
    )
}

/// The forest and counter after `fuel` passes, the first at `level`.
pub open spec fn spec_passes(f: Seq<ChunkModel>, next: nat, level: nat, fuel: nat) -> (
    Seq<ChunkModel>,
    nat,
)
    decreases fuel,
{
    if fuel == 0 {
        (f, next)
    } else {
        spec_passes(
            passed_forest(f, next, level),
            prefix_next(f, f.len() as int, next, level),
            level + 1,
            (fuel - 1) as nat,
        )
    }
}

/// How many levels one chunk's subtree spans: 1 for a childless chunk.
pub open spec fn node_height(c: ChunkModel) -> nat
    decreases c, 0int,
{
    match c.content {
        ContentModel::Container { children, .. } => 1 + forest_height(children, 0),
        _ => 1,
    }
}

/// How many levels the forest suffix `f[i..]` spans: 0 when it is empty.
pub open spec fn forest_height(f: Seq<ChunkModel>, i: int) -> nat
    decreases f, f.len() - i, 1int,
{
    if i < 0 || i >= f.len() {
        0
    } else {
        let hk = node_height(f[i]);
        let hr = forest_height(f, i + 1);
        if hk >= hr {
            hk
        } else {
            hr
        }
    }
}

/// Whether a forest's enumeration ordinals stay within the machine's
/// `usize` range: passes run at levels `0 ..= forest_height`, and the
/// counter after the last pass is the highest value the ordinals reach.
pub open spec fn enumeration_fits(f: Seq<ChunkModel>) -> bool {
    &&& forest_height(f, 0) < usize::MAX
    &&& spec_passes(f, 0, 0, forest_height(f, 0) + 1).1 <= usize::MAX
}

/// What enumeration yields: the forest `f0` after `k` passes (levels
/// `0 .. k`), where pass `k - 1` is the first that assigns no ordinal and
/// every earlier pass assigns at least one.
pub open spec fn is_enumerated(f0: Seq<ChunkModel>, f1: Seq<ChunkModel>) -> bool {
    exists|k: nat|
        #![trigger spec_passes(f0, 0, 0, k)]
        {
            let r = spec_passes(f0, 0, 0, k);
            &&& 1 <= k <= forest_height(f0, 0) + 1
            &&& f1 == r.0
            &&& spec_passes(f0, 0, 0, (k - 1) as nat).1 == r.1
            &&& forall|i: nat|
                i + 1 < k ==> #[trigger] spec_passes(f0, 0, 0, i).1 < spec_passes(
                    f0,
                    0,
                    0,
                    i + 1,
                ).1
        }
}

/// How many chunks of `c`'s subtree lie at relative depth `d` (the chunk
/// itself is at depth 0).
pub open spec fn node_count_level(c: ChunkModel, d: int) -> nat
    decreases c, 0int, 0int,
{
    if d < 0 {
        0
    } else if d == 0 {
        1
    } else {
        match c.content {
            ContentModel::Container { children, .. } => count_level_pre(
                children,
                children.len() as int,
                d - 1,
            ),
            _ => 0,
        }
    }
}

/// How many chunks at relative depth `d` the subtrees of the first `j`
/// chunks of `f` hold together.
pub open spec fn count_level_pre(f: Seq<ChunkModel>, j: int, d: int) -> nat
    decreases f, j, 1int,
{
    if j <= 0 || j > f.len() {
        0
    } else {
        count_level_pre(f, j - 1, d) + node_count_level(f[j - 1], d)
    }
}

/// How many chunks `c`'s subtree holds in all.
pub open spec fn node_count_all(c: ChunkModel) -> nat
    decreases c, 0int, 0int,
{
    match c.content {
        ContentModel::Container { children, .. } => 1 + count_all_pre(
            children,
            children.len() as int,
        ),
        _ => 1,
    }
}

/// How many chunks the subtrees of the first `j` chunks of `f` hold in all.
pub open spec fn count_all_pre(f: Seq<ChunkModel>, j: int) -> nat
    decreases f, j, 1int,
{
    if j <= 0 || j > f.len() {
        0
    } else {
        count_all_pre(f, j - 1) + node_count_all(f[j - 1])
    }
}

/// How many chunks the first `j` subtrees of `f` hold at the `fuel` depths
/// `d0, d0 + 1, ...` together.
pub open spec fn span_pre(f: Seq<ChunkModel>, j: int, d0: int, fuel: nat) -> nat
    decreases fuel,
{
    if fuel == 0 {
        0
    } else {
        count_level_pre(f, j, d0) + span_pre(f, j, d0 + 1, (fuel - 1) as nat)
    }
}

/// How many chunks of `c`'s subtree lie at the `fuel` depths `d0, ...`.
pub open spec fn node_span(c: ChunkModel, d0: int, fuel: nat) -> nat
    decreases fuel,
{
    if fuel == 0 {
        0
    } else {
        node_count_level(c, d0) + node_span(c, d0 + 1, (fuel - 1) as nat)
    }
}

/// One pass at `level` assigns at most one ordinal per chunk at that depth.
pub proof fn lemma_pass_node_count(c: ChunkModel, next: nat, level: nat)
    ensures
        pass_node(c, next, level).1 <= next + node_count_level(c, level as int),
    decreases c, 0int,
{
    if !c.complete && level > 0 {
        match c.content {
            ContentModel::Container { children, .. } => {
                lemma_prefix_next_count(children, children.len() as int, next, (level - 1) as nat);
            },
            _ => {},
        }
    }
}

/// One pass over the first `j` chunks assigns at most one ordinal per
/// chunk at its depth.
pub proof fn lemma_prefix_next_count(f: Seq<ChunkModel>, j: int, next: nat, level: nat)
    ensures
        prefix_next(f, j, next, level) <= next + count_level_pre(f, j, level as int),
    decreases f, j, 1int,
{
    if 0 < j <= f.len() {
        lemma_prefix_next_count(f, j - 1, next, level);
        lemma_pass_node_count(f[j - 1], prefix_next(f, j - 1, next, level), level);
    }
}

/// A pass changes no chunk's per-depth counts.
pub proof fn lemma_pass_node_counts_kept(c: ChunkModel, next: nat, level: nat, d: int)
    ensures
        node_count_level(pass_node(c, next, level).0, d) == node_count_level(c, d),
    decreases c, 0int,
{
    if !c.complete && level > 0 {
        match c.content {
            ContentModel::Container { children, .. } => {
                lemma_passed_counts_kept(
                    children,
                    next,
                    (level - 1) as nat,
                    children.len() as int,
                    d - 1,
                );
            },
            _ => {},
        }
    }
}

/// A pass changes no forest's per-depth counts.
pub proof fn lemma_passed_counts_kept(f: Seq<ChunkModel>, next: nat, level: nat, j: int, d: int)
    ensures
        count_level_pre(passed_forest(f, next, level), j, d) == count_level_pre(f, j, d),
    decreases f, j, 1int,
{
    if 0 < j <= f.len() {
        lemma_pass_node_counts_kept(f[j - 1], prefix_next(f, j - 1, next, level), level, d);
        lemma_passed_counts_kept(f, next, level, j - 1, d);
    }
}

/// A pass changes no forest's depth-span counts.
pub proof fn lemma_passed_span_kept(f: Seq<ChunkModel>, next: nat, level: nat, d0: int, fuel: nat)
    ensures
        span_pre(passed_forest(f, next, level), passed_forest(f, next, level).len() as int, d0, fuel)
            == span_pre(f, f.len() as int, d0, fuel),
    decreases fuel,
{
    if fuel > 0 {
        lemma_passed_counts_kept(f, next, level, f.len() as int, d0);
        lemma_passed_span_kept(f, next, level, d0 + 1, (fuel - 1) as nat);
    }
}

/// A chain of passes starting at `level` assigns at most one ordinal per
/// chunk at the depths the passes visit.
pub proof fn lemma_passes_count(f: Seq<ChunkModel>, next: nat, level: nat, fuel: nat)
    ensures
        spec_passes(f, next, level, fuel).1 <= next + span_pre(f, f.len() as int, level as int, fuel),
    decreases fuel,
{
    if fuel > 0 {
        let f1 = passed_forest(f, next, level);
        let n1 = prefix_next(f, f.len() as int, next, level);
        lemma_prefix_next_count(f, f.len() as int, next, level);
        lemma_passes_count(f1, n1, level + 1, (fuel - 1) as nat);
        lemma_passed_span_kept(f, next, level, level as int + 1, (fuel - 1) as nat);
    }
}

/// Splits a forest's depth-span count at its last chunk.
pub proof fn lemma_span_split(f: Seq<ChunkModel>, j: int, d0: int, fuel: nat)
    requires
        0 < j <= f.len(),
    ensures
        span_pre(f, j, d0, fuel) == span_pre(f, j - 1, d0, fuel) + node_span(f[j - 1], d0, fuel),
    decreases fuel,
{
    if fuel > 0 {
        lemma_span_split(f, j, d0 + 1, (fuel - 1) as nat);
    }
}

/// A chunk's depth-span count is its own depth-0 contribution plus its
/// children's, one level shallower.
pub proof fn lemma_node_span_unfold(c: ChunkModel, d0: int, fuel: nat)
    requires
        d0 >= 0,
    ensures
        d0 >= 1 ==> node_span(c, d0, fuel) == span_pre(kids(c), kids(c).len() as int, d0 - 1, fuel),
        d0 == 0 && fuel > 0 ==> node_span(c, 0, fuel) == 1 + span_pre(
            kids(c),
            kids(c).len() as int,
            0,
            (fuel - 1) as nat,
        ),
    decreases fuel,
{
    if fuel > 0 {
        lemma_node_span_unfold(c, d0 + 1, (fuel - 1) as nat);
    }
}

/// An empty prefix holds no chunks at any depth.
pub proof fn lemma_span_empty(f: Seq<ChunkModel>, j: int, d0: int, fuel: nat)
    requires
        j <= 0 || j > f.len(),
    ensures
        span_pre(f, j, d0, fuel) == 0,
    decreases fuel,
{
    if fuel > 0 {
        lemma_span_empty(f, j, d0 + 1, (fuel - 1) as nat);
    }
}

/// No matter how many depths are counted, a chunk's depth-span count never
/// exceeds its subtree's total chunk count.
pub proof fn lemma_node_span_le_count(c: ChunkModel, d0: int, fuel: nat)
    requires
        d0 >= 0,
    ensures
        node_span(c, d0, fuel) <= node_count_all(c),
    decreases c, 0int,
{
    lemma_node_span_unfold(c, d0, fuel);
    match c.content {
        ContentModel::Container { children, .. } => {
            if d0 >= 1 {
                lemma_span_le_count(children, children.len() as int, d0 - 1, fuel);
            } else if fuel > 0 {
                lemma_span_le_count(children, children.len() as int, 0, (fuel - 1) as nat);
            }
        },
        _ => {
            if d0 >= 1 {
                lemma_span_empty(kids(c), kids(c).len() as int, d0 - 1, fuel);
            } else if fuel > 0 {
                lemma_span_empty(kids(c), kids(c).len() as int, 0, (fuel - 1) as nat);
            }
        },
    }
}

/// No matter how many depths are counted, a forest prefix's depth-span
/// count never exceeds its total chunk count.
pub proof fn lemma_span_le_count(f: Seq<ChunkModel>, j: int, d0: int, fuel: nat)
    requires
        d0 >= 0,
        j <= f.len(),
    ensures
        span_pre(f, j, d0, fuel) <= count_all_pre(f, j),
    decreases f, j, 1int,
{
    if j <= 0 {
        lemma_span_empty(f, j, d0, fuel);
    } else {
        lemma_span_split(f, j, d0, fuel);
        lemma_span_le_count(f, j - 1, d0, fuel);
        lemma_node_span_le_count(f[j - 1], d0, fuel);
    }
}

/// Ordinals never run past the total chunk count: a chain of passes
/// starting from 0 stays within it.
pub proof fn lemma_passes_le_count(f: Seq<ChunkModel>, fuel: nat)
    ensures
        spec_passes(f, 0, 0, fuel).1 <= count_all_pre(f, f.len() as int),
{
    lemma_passes_count(f, 0, 0, fuel);
    lemma_span_le_count(f, f.len() as int, 0, fuel);
}

/// Prepending one chunk shifts the height of the rest by one position.
proof fn lemma_height_shift(x: ChunkModel, g: Seq<ChunkModel>, i: int)
    requires
        0 <= i <= g.len(),
    ensures
        forest_height(seq![x] + g, i + 1) == forest_height(g, i),
    decreases g.len() - i,
{
    if i < g.len() {
        assert((seq![x] + g)[i + 1] == g[i]);
        lemma_height_shift(x, g, i + 1);
    }
}

/// Prepending one chunk adds its subtree count to the total.
proof fn lemma_count_concat(x: ChunkModel, g: Seq<ChunkModel>, j: int)
    requires
        0 <= j <= g.len(),
    ensures
        count_all_pre(seq![x] + g, j + 1) == node_count_all(x) + count_all_pre(g, j),
    decreases j,
{
    reveal_with_fuel(count_all_pre, 2);
    if j > 0 {
        assert((seq![x] + g)[j] == g[j - 1]);
        lemma_count_concat(x, g, j - 1);
    } else {
        assert((seq![x] + g)[0] == x);
    }
}

/// A parsed forest never holds more chunks than the buffer holds bytes:
/// every chunk costs at least its 8 header bytes.
pub proof fn lemma_parse_count(s: Seq<u8>)
    ensures
        s.len() < 8 ==> count_all_pre(
            crate::model::spec_parse_forest(s),
            crate::model::spec_parse_forest(s).len() as int,
        ) == 0,
        s.len() >= 8 ==> count_all_pre(
            crate::model::spec_parse_forest(s),
            crate::model::spec_parse_forest(s).len() as int,
        ) + 7 <= s.len(),
    decreases s.len(),
{
    if s.len() >= 8 {
        let node = crate::model::spec_parse(s);
        let step = crate::model::spec_step(s);
        let payload = crate::model::spec_payload(s);
        lemma_parse_count(payload);
        assert(payload.len() <= crate::model::spec_chunk_size(s));
        assert(node_count_all(node) <= 1 + (if payload.len() >= 8 {
            payload.len() - 7
        } else {
            0int
        })) by {
            if crate::model::spec_is_container(s) {
                assert(node_count_all(node) == 1 + count_all_pre(
                    crate::model::spec_parse_forest(payload),
                    crate::model::spec_parse_forest(payload).len() as int,
                ));
            } else {
                assert(node_count_all(node) == 1);
            }
        }
        assert(payload.len() <= s.len() - 8);
        assert(crate::model::spec_consumed(s) >= 8 + crate::model::spec_chunk_size(s));
        if step + 8 <= s.len() {
            let rest = crate::model::spec_parse_forest(s.skip(step as int));
            lemma_parse_count(s.skip(step as int));
            lemma_count_concat(node, rest, rest.len() as int);
            assert(s.skip(step as int).len() == s.len() - step);
            assert(step >= crate::model::spec_consumed(s));
            assert(crate::model::spec_parse_forest(s) == seq![node] + rest);
            assert(count_all_pre(seq![node] + rest, (seq![node] + rest).len() as int)
                == node_count_all(node) + count_all_pre(rest, rest.len() as int));
            assert(count_all_pre(rest, rest.len() as int) + 7 <= s.len() - step);
            assert(count_all_pre(
                crate::model::spec_parse_forest(s),
                crate::model::spec_parse_forest(s).len() as int,
            ) + 7 <= s.len());
        } else {
            assert(count_all_pre(seq![node], 1) == node_count_all(node)) by {
                reveal_with_fuel(count_all_pre, 2);
                assert(seq![node][0] == node);
            }
            assert(crate::model::spec_parse_forest(s) == seq![node]);
            assert(count_all_pre(
                crate::model::spec_parse_forest(s),
                crate::model::spec_parse_forest(s).len() as int,
            ) + 7 <= s.len());
        }
    }
}

/// A parsed forest never nests deeper than the buffer holds bytes.
pub proof fn lemma_parse_height(s: Seq<u8>)
    ensures
        s.len() < 8 ==> forest_height(crate::model::spec_parse_forest(s), 0) == 0,
        s.len() >= 8 ==> forest_height(crate::model::spec_parse_forest(s), 0) + 7 <= s.len(),
    decreases s.len(),
{
    if s.len() >= 8 {
        let node = crate::model::spec_parse(s);
        let step = crate::model::spec_step(s);
        let payload = crate::model::spec_payload(s);
        lemma_parse_height(payload);
        assert(payload.len() <= crate::model::spec_chunk_size(s));
        assert(node_height(node) + 7 <= s.len()) by {
            if crate::model::spec_is_container(s) {
                assert(payload.len() <= s.len() - 12);
                assert(node_height(node) == 1 + forest_height(
                    crate::model::spec_parse_forest(payload),
                    0,
                ));
            } else {
                assert(node_height(node) == 1);
            }
        }
        if step + 8 <= s.len() {
            let rest = crate::model::spec_parse_forest(s.skip(step as int));
            lemma_parse_height(s.skip(step as int));
            lemma_height_shift(node, rest, 0);
            assert(forest_height(seq![node] + rest, 0) == (if node_height(node) >= forest_height(
                rest,
                0,
            ) {
                node_height(node)
            } else {
                forest_height(rest, 0)
            })) by {
                assert((seq![node] + rest)[0] == node);
            }
            assert(s.skip(step as int).len() == s.len() - step);
        } else {
            assert(forest_height(seq![node], 0) == node_height(node)) by {
                reveal_with_fuel(forest_height, 2);
                assert(seq![node][0] == node);
            }
        }
    }
}

/// A parsed forest can always be enumerated: every chunk and every level
/// of nesting costs bytes of the buffer, whose length fits `usize`, so
/// neither the pass levels nor the ordinals can overflow.
pub proof fn lemma_parse_enumeration_fits(s: Seq<u8>)
    requires
        s.len() <= usize::MAX,
    ensures
        enumeration_fits(crate::model::spec_parse_forest(s)),
{
    let f = crate::model::spec_parse_forest(s);
    lemma_parse_height(s);
    lemma_parse_count(s);
    lemma_passes_le_count(f, forest_height(f, 0) + 1);
}

/// Law: the first enumeration pass numbers the top-level chunks 0, 1, 2,
/// ... in encounter order; chunks deeper in the forest are numbered by
/// later passes.
pub proof fn lemma_first_pass_numbers_roots(f: Seq<ChunkModel>, j: int)
    requires
        forall|i: int| 0 <= i < f.len() ==> !(#[trigger] f[i]).complete,
        0 <= j <= f.len(),
    ensures
        prefix_next(f, j, 0, 0) == j,
        forall|i: int|
            0 <= i < j ==> (#[trigger] passed_forest(f, 0, 0)[i]).number == Some(i as nat),
    decreases j,
{
    if j > 0 {
        lemma_first_pass_numbers_roots(f, j - 1);
        assert(passed_forest(f, 0, 0)[j - 1] == pass_node(
            f[j - 1],
            prefix_next(f, j - 1, 0, 0),
            0,
        ).0);
        assert(pass_node(f[j - 1], (j - 1) as nat, 0).0.number == Some((j - 1) as nat));
    }
}

/// A pass never decreases the ordinal counter.
pub proof fn lemma_pass_node_mono(c: ChunkModel, next: nat, level: nat)
    ensures
        pass_node(c, next, level).1 >= next,
    decreases c, 0int,
{
    if !c.complete && level > 0 {
        match c.content {
            ContentModel::Container { children, .. } => {
                lemma_prefix_next_mono(children, children.len() as int, next, (level - 1) as nat);
            },
            _ => {},
        }
    }
}

/// Handling more chunks never decreases the ordinal counter.
pub proof fn lemma_prefix_next_mono(f: Seq<ChunkModel>, j: int, next: nat, level: nat)
    ensures
        prefix_next(f, j, next, level) >= next,
        forall|j2: int|
            0 <= j2 <= j <= f.len() ==> #[trigger] prefix_next(f, j2, next, level) <= prefix_next(
                f,
                j,
                next,
                level,
            ),
    decreases f, j, 1int,
{
    if 0 < j <= f.len() {
        lemma_prefix_next_mono(f, j - 1, next, level);
        lemma_pass_node_mono(f[j - 1], prefix_next(f, j - 1, next, level), level);
    }
}

/// A pass that assigns an ordinal inside a chunk runs at a level below the
/// chunk's subtree height.
pub proof fn lemma_pass_node_assign(c: ChunkModel, next: nat, level: nat)
    ensures
        pass_node(c, next, level).1 > next ==> level < node_height(c),
    decreases c, 0int,
{
    if !c.complete && level > 0 {
        match c.content {
            ContentModel::Container { children, .. } => {
                lemma_prefix_next_assign(children, children.len() as int, next, (level - 1) as nat);
            },
            _ => {},
        }
    }
}

/// A pass that assigns an ordinal among the first `j` chunks runs at a
/// level below the forest's height.
pub proof fn lemma_prefix_next_assign(f: Seq<ChunkModel>, j: int, next: nat, level: nat)
    ensures
        prefix_next(f, j, next, level) > next ==> level < forest_height(f, 0),
    decreases f, j, 1int,
{
    if 0 < j <= f.len() {
        lemma_prefix_next_assign(f, j - 1, next, level);
        let m = prefix_next(f, j - 1, next, level);
        lemma_prefix_next_mono(f, j - 1, next, level);
        lemma_pass_node_assign(f[j - 1], m, level);
        lemma_pass_node_mono(f[j - 1], m, level);
        if pass_node(f[j - 1], m, level).1 > m {
            lemma_node_height_le_forest(f, 0, j - 1);
        }
    }
}

/// Every chunk's subtree height is at most the forest's height.
pub proof fn lemma_node_height_le_forest(f: Seq<ChunkModel>, i: int, k: int)
    requires
        0 <= i <= k < f.len(),
    ensures
        node_height(f[k]) <= forest_height(f, i),
    decreases k - i,
{
    if i < k {
        lemma_node_height_le_forest(f, i + 1, k);
    }
}

/// A pass changes no chunk's subtree height.
pub proof fn lemma_pass_node_height(c: ChunkModel, next: nat, level: nat)
    ensures
        node_height(pass_node(c, next, level).0) == node_height(c),
    decreases c, 0int,
{
    if !c.complete && level > 0 {
        match c.content {
            ContentModel::Container { children, .. } => {
                lemma_passed_forest_height(children, next, (level - 1) as nat, 0);
            },
            _ => {},
        }
    }
}

/// A pass changes no forest's height.
pub proof fn lemma_passed_forest_height(f: Seq<ChunkModel>, next: nat, level: nat, i: int)
    ensures
        forest_height(passed_forest(f, next, level), i) == forest_height(f, i),
    decreases f, f.len() - i, 1int,
{
    if 0 <= i < f.len() {
        lemma_pass_node_height(f[i], prefix_next(f, i, next, level), level);
        lemma_passed_forest_height(f, next, level, i + 1);
    }
}

/// Unrolls one more pass at the end of a chain of passes.
pub proof fn lemma_passes_snoc(f: Seq<ChunkModel>, next: nat, level: nat, fuel: nat)
    ensures
        spec_passes(f, next, level, fuel + 1) == ({
            let r = spec_passes(f, next, level, fuel);
            (
                passed_forest(r.0, r.1, level + fuel),
                prefix_next(r.0, r.0.len() as int, r.1, level + fuel),
            )
        }),
    decreases fuel,
{
    reveal_with_fuel(spec_passes, 2);
    if fuel > 0 {
        lemma_passes_snoc(
            passed_forest(f, next, level),
            prefix_next(f, f.len() as int, next, level),
            level + 1,
            (fuel - 1) as nat,
        );
    }
}

/// Chains of passes never decrease the ordinal counter, and longer chains
/// reach counters at least as high.
pub proof fn lemma_passes_mono(f: Seq<ChunkModel>, next: nat, level: nat, fuel: nat)
    ensures
        spec_passes(f, next, level, fuel).1 >= next,
        forall|fuel2: nat|
            fuel2 <= fuel ==> #[trigger] spec_passes(f, next, level, fuel2).1 <= spec_passes(
                f,
                next,
                level,
                fuel,
            ).1,
    decreases fuel,
{
    if fuel > 0 {
        let f1 = passed_forest(f, next, level);
        let n1 = prefix_next(f, f.len() as int, next, level);
        lemma_prefix_next_mono(f, f.len() as int, next, level);
        lemma_passes_mono(f1, n1, level + 1, (fuel - 1) as nat);
        lemma_passes_snoc(f, next, level, (fuel - 1) as nat);
        lemma_passes_mono(f, next, level, (fuel - 1) as nat);
        let prev = spec_passes(f, next, level, (fuel - 1) as nat);
        lemma_prefix_next_mono(prev.0, prev.0.len() as int, prev.1, level + ((fuel - 1) as nat));
        assert forall|fuel2: nat| fuel2 <= fuel implies #[trigger] spec_passes(
            f,
            next,
            level,
            fuel2,
        ).1 <= spec_passes(f, next, level, fuel).1 by {
            if fuel2 <= (fuel - 1) as nat {
                lemma_passes_mono(f, next, level, (fuel - 1) as nat);
            }
        }
    }
}

} // verus!
