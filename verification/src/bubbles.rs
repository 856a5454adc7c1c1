//! The bubble-detection core: frontier advancement, width sequence building,
//! and the matching of width increases with width decreases.

use vstd::prelude::*;
use crate::graph::{graph_edges, graph_handles, graph_ids_packable, graph_succ, node_exists,
    edges_vec, handles_vec, has_node, ids_packable, neighbors_fwd, sorted_vec};
use crate::seqs::{strictly_sorted, copy_vec, dedup_sorted, lemma_push_contains,
    lemma_strictly_sorted_unique};
use handlegraph::hashgraph::HashGraph;

verus! {

/// The classification of a bubble. Only `Simple` is ever produced; `Complex`
/// is reserved for a finer analysis and is never constructed here.
#[derive(Clone, Copy, Debug, PartialEq, Eq, Structural)]
pub enum BubbleType {
    Simple,
    Complex,
}

/// A detected bubble: a start and an end boundary, each a synthetic
/// identifier derived from cumulative frontier widths (not a handle of the
/// graph), and a classification.
#[derive(Clone, Copy, Debug, PartialEq, Eq, Structural)]
pub struct Bubble {
    pub start: u64,
    pub end: u64,
    pub bubble_type: BubbleType,
}

/// The synthetic identifier counter before the level transition `n` is
/// processed: it starts at 2 (identifier 1 stands for the root) and grows by
/// twice the width of each level left behind.
pub open spec fn counter_at(w: Seq<usize>, n: int) -> int
    decreases n,
{
    if n <= 0 {
        2
    } else {
        counter_at(w, n - 1) + 2 * w[n - 1]
    }
}

/// Every synthetic identifier the matcher computes for the width sequence
/// stays within `u64`.
pub open spec fn counter_fits(w: Seq<usize>) -> bool {
    w.len() == 0 || counter_at(w, w.len() - 1) <= u64::MAX
}

/// The counter never shrinks as transitions are processed.
pub proof fn lemma_counter_mono(w: Seq<usize>, i: int, j: int)
    requires
        i <= j,
    ensures
        counter_at(w, i) <= counter_at(w, j),
    decreases j - i,
{
    if i < j {
        lemma_counter_mono(w, i, j - 1);
    }
}

/// The "open" boundaries recorded over the first `n` level transitions, in
/// the order they were recorded: one per width increase, carrying the
/// counter value at its transition.
pub open spec fn opens_upto(w: Seq<usize>, n: int) -> Seq<u64>
    decreases n,
{
    if n <= 0 {
        Seq::empty()
    } else if w[n] > w[n - 1] {
        opens_upto(w, n - 1).push(counter_at(w, n - 1) as u64)
    } else {
        opens_upto(w, n - 1)
    }
}

/// The "close" boundaries recorded over the first `n` level transitions, in
/// the order they were recorded: one per width decrease, carrying the
/// counter value at its transition plus twice the width left behind.
pub open spec fn closes_upto(w: Seq<usize>, n: int) -> Seq<u64>
    decreases n,
{
    if n <= 0 {
        Seq::empty()
    } else if w[n] < w[n - 1] {
        closes_upto(w, n - 1).push(counter_at(w, n) as u64)
    } else {
        closes_upto(w, n - 1)
    }
}

/// The bubbles matched from a width sequence: opens and closes are paired
/// most recent with most recent, and the surplus of the longer collection is
/// silently dropped.
pub open spec fn bubbles_of(w: Seq<usize>) -> Seq<Bubble> {
    let o = opens_upto(w, w.len() - 1);
    let c = closes_upto(w, w.len() - 1);
    let m = if o.len() <= c.len() {
        o.len() as int
    } else {
        c.len() as int
    };
    Seq::new(m as nat,
        |k: int|
            Bubble {
                start: o[o.len() - 1 - k],
                end: c[c.len() - 1 - k],
                bubble_type: BubbleType::Simple,
            },
    )
}

/// The handles the advancer keeps from one frontier handle: its rightward
/// neighbors with a strictly greater packed value, or nothing when the
/// handle's node is absent from the graph.
pub open spec fn kept_succ(g: HashGraph, h: u64) -> Set<u64> {
    Set::new(|x: u64| node_exists(g, h) && graph_succ(g, h).contains(x) && x > h)
}

/// The set of handles of the frontier that follows the given one: the union
/// of the kept successors of its handles.
pub open spec fn next_frontier_set(g: HashGraph, front: Seq<u64>) -> Set<u64> {
    Set::new(|x: u64| exists|i: int| 0 <= i < front.len() && kept_succ(g, front[i]).contains(x))
}

/// `next` is the frontier that follows `cur`: sorted, duplicate-free, and
/// holding exactly the kept successors of `cur`'s handles.
pub open spec fn is_next_frontier(g: HashGraph, cur: Seq<u64>, next: Seq<u64>) -> bool {
    &&& strictly_sorted(next)
    &&& forall|x: u64| next.contains(x) <==> next_frontier_set(g, cur).contains(x)
}

/// The advancer keeps only one frontier for any input: its result is pinned
/// by being sorted, duplicate-free and holding exactly the kept successors.
pub proof fn lemma_advance_deterministic(g: HashGraph, cur: Seq<u64>, r1: Seq<u64>, r2: Seq<u64>)
    requires
        is_next_frontier(g, cur, r1),
        is_next_frontier(g, cur, r2),
    ensures
        r1 == r2,
{
    lemma_strictly_sorted_unique(r1, r2);
}

/// The rightward neighbors of one handle that the traversal keeps: those
/// with a strictly greater packed value. A handle whose node is absent from
/// the graph contributes nothing.
pub fn find_neighbors_to_add(graph: &HashGraph, curr_handle: u64) -> (r: Vec<u64>)
    ensures
        forall|x: u64| r@.contains(x) <==> kept_succ(*graph, curr_handle).contains(x),
{
    let mut r: Vec<u64> = Vec::new();
    if !has_node(graph, curr_handle) {
        return r;
    }
    let ns = neighbors_fwd(graph, curr_handle);
    let mut i: usize = 0;
    while i < ns.len()
        invariant
            i <= ns@.len(),
            node_exists(*graph, curr_handle),
            forall|x: u64| ns@.contains(x) <==> graph_succ(*graph, curr_handle).contains(x),
            forall|x: u64|
                r@.contains(x) <==> (ns@.take(i as int).contains(x) && x > curr_handle),
        decreases ns@.len() - i,
    {
        let ghost prefix = ns@.take(i as int);
        assert(ns@.take(i + 1) =~= prefix.push(ns@[i as int]));
        if ns[i] > curr_handle {
            let ghost old_r = r@;
            r.push(ns[i]);
            assert forall|x: u64|
                r@.contains(x) <==> (ns@.take(i + 1).contains(x) && x > curr_handle) by {
                lemma_push_contains(old_r, ns@[i as int], x);
                lemma_push_contains(prefix, ns@[i as int], x);
                assert(r@ == old_r.push(ns@[i as int]));
                assert(ns@.take(i + 1) == prefix.push(ns@[i as int]));
            }
        } else {
            assert forall|x: u64|
                r@.contains(x) <==> (ns@.take(i + 1).contains(x) && x > curr_handle) by {
                lemma_push_contains(prefix, ns@[i as int], x);
                assert(ns@.take(i + 1) == prefix.push(ns@[i as int]));
            }
        }
        i += 1;
    }
    assert(ns@.take(ns@.len() as int) =~= ns@);
    r
}

/// Decides whether every synthetic identifier for this width sequence stays
/// within `u64`, so that the matcher may run on it.
pub fn widths_fit(w: &Vec<usize>) -> (b: bool)
    ensures
        b == counter_fits(w@),
{
    if w.len() == 0 {
        return true;
    }
    let mut acc: u64 = 2;
    let mut i: usize = 0;
    while i < w.len() - 1
        invariant
            w@.len() > 0,
            i <= w@.len() - 1,
            acc == counter_at(w@, i as int),
        decreases w@.len() - 1 - i,
    {
        let t: u128 = (acc as u128) + 2u128 * (w[i] as u128);
        assert(t == counter_at(w@, i + 1));
        if t > u64::MAX as u128 {
            proof {
                lemma_counter_mono(w@, i + 1, w@.len() - 1);
            }
            return false;
        }
        acc = t as u64;
        i += 1;
    }
    true
}

/// Walks the width sequence, recording an "open" boundary at each width
/// increase and a "close" boundary at each width decrease, and pairs them
/// up, most recently recorded first, into bubble records. A surplus of
/// opens or of closes is silently dropped: the pairing stops at the shorter
/// collection.
pub fn match_bubbles(widths: &Vec<usize>) -> (r: Vec<Bubble>)
    requires
        counter_fits(widths@),
    ensures
        r@ == bubbles_of(widths@),
{
    let mut bubbles: Vec<Bubble> = Vec::new();
    if widths.len() == 0 {
        assert(bubbles@ =~= bubbles_of(widths@));
        return bubbles;
    }
    let mut opens: Vec<u64> = Vec::new();
    let mut closes: Vec<u64> = Vec::new();
    let mut counter: u64 = 2;
    let mut level: usize = 0;
    while level < widths.len() - 1
        invariant
            widths@.len() > 0,
            level <= widths@.len() - 1,
            counter_fits(widths@),
            counter == counter_at(widths@, level as int),
            opens@ == opens_upto(widths@, level as int),
            closes@ == closes_upto(widths@, level as int),
        decreases widths@.len() - 1 - level,
    {
        let width_i = widths[level];
        let width_j = widths[level + 1];
        proof {
            lemma_counter_mono(widths@, level + 1, widths@.len() - 1);
        }
        assert(counter_at(widths@, level + 1) == counter + 2 * (width_i as int));
        let step: u64 = 2 * (width_i as u64);
        if width_j > width_i {
            opens.push(counter);
        } else if width_j < width_i {
            closes.push(counter + step);
        }
        counter = counter + step;
        level += 1;
    }
    let m = if opens.len() <= closes.len() {
        opens.len()
    } else {
        closes.len()
    };
    let mut k: usize = 0;
    while k < m
        invariant
            opens@ == opens_upto(widths@, widths@.len() - 1),
            closes@ == closes_upto(widths@, widths@.len() - 1),
            m <= opens@.len() && m <= closes@.len(),
            (m == opens@.len() || m == closes@.len()),
            k <= m,
            bubbles@.len() == k,
            forall|q: int|
                0 <= q < k ==> bubbles@[q] == (Bubble {
                    start: opens@[opens@.len() - 1 - q],
                    end: closes@[closes@.len() - 1 - q],
                    bubble_type: BubbleType::Simple,
                }),
        decreases m - k,
    {
        let open = opens[opens.len() - 1 - k];
        let close = closes[closes.len() - 1 - k];
        bubbles.push(Bubble { start: open, end: close, bubble_type: BubbleType::Simple });
        k += 1;
    }
    assert(bubbles@ =~= bubbles_of(widths@));
    bubbles
}

/// Advance the frontier of the traversal: the union of the kept neighbors of
/// its handles, deduplicated and sorted by packed value.
pub fn advance_bfs(graph: &HashGraph, curr_front: &Vec<u64>) -> (r: Vec<u64>)
    ensures
        is_next_frontier(*graph, curr_front@, r@),
{
    let mut all: Vec<u64> = Vec::new();
    let mut i: usize = 0;
    while i < curr_front.len()
        invariant
            i <= curr_front@.len(),
            forall|x: u64|
                all@.contains(x) <==> exists|j: int|
                    0 <= j < i && kept_succ(*graph, curr_front@[j]).contains(x),
        decreases curr_front@.len() - i,
    {
        let mut ns = find_neighbors_to_add(graph, curr_front[i]);
        let ghost old_all = all@;
        let ghost ns_view = ns@;
        all.append(&mut ns);
        assert(all@ == old_all + ns_view);
        assert forall|x: u64|
            all@.contains(x) <==> exists|j: int|
                0 <= j < i + 1 && kept_succ(*graph, curr_front@[j]).contains(x) by {
            if all@.contains(x) {
                let k = choose|k: int| 0 <= k < all@.len() && all@[k] == x;
                if k < old_all.len() {
                    assert(old_all[k] == x);
                    assert(old_all.contains(x));
                    let j = choose|j: int|
                        0 <= j < i && kept_succ(*graph, curr_front@[j]).contains(x);
                    assert(0 <= j < i + 1 && kept_succ(*graph, curr_front@[j]).contains(x));
                } else {
                    assert(ns_view[k - old_all.len()] == x);
                    assert(ns_view.contains(x));
                    assert(kept_succ(*graph, curr_front@[i as int]).contains(x));
                    assert(0 <= i < i + 1 && kept_succ(*graph, curr_front@[i as int]).contains(
                        x,
                    ));
                }
            }
            if exists|j: int| 0 <= j < i + 1 && kept_succ(*graph, curr_front@[j]).contains(x) {
                let j = choose|j: int|
                    0 <= j < i + 1 && kept_succ(*graph, curr_front@[j]).contains(x);
                if j < i {
                    assert(old_all.contains(x));
                    let k = choose|k: int| 0 <= k < old_all.len() && old_all[k] == x;
                    assert(all@[k] == x);
                } else {
                    assert(kept_succ(*graph, curr_front@[i as int]).contains(x));
                    assert(ns_view.contains(x));
                    let k = choose|k: int| 0 <= k < ns_view.len() && ns_view[k] == x;
                    assert(all@[old_all.len() + k] == x);
                }
            }
        }
        i += 1;
    }
    let sorted = sorted_vec(all);
    let r = dedup_sorted(&sorted);
    assert forall|x: u64| r@.contains(x) <==> next_frontier_set(*graph, curr_front@).contains(
        x,
    ) by {
        assert(next_frontier_set(*graph, curr_front@).contains(x) <==> exists|j: int|
            0 <= j < curr_front@.len() && kept_succ(*graph, curr_front@[j]).contains(x));
    }
    r
}

/// The graph has at least one node.
pub open spec fn has_handles(g: HashGraph) -> bool {
    exists|x: u64| graph_handles(g).contains(x)
}

/// `r` is the graph's handle with the least packed value: the traversal
/// root.
pub open spec fn is_min_handle(g: HashGraph, r: u64) -> bool {
    &&& graph_handles(g).contains(r)
    &&& forall|x: u64| graph_handles(g).contains(x) ==> r <= x
}

/// The views of a sequence of frontier vectors.
pub open spec fn fronts_view(fs: Seq<Vec<u64>>) -> Seq<Seq<u64>> {
    fs.map_values(|f: Vec<u64>| f@)
}

/// What the width sequence builder returns for a graph: an empty pair for
/// an empty graph; otherwise the frontier sequence starts at the root and
/// each frontier is followed by the (nonempty) frontier the advancer keeps,
/// until a frontier with no kept successors, and the width sequence holds
/// the frontier lengths.
pub open spec fn widths_post(g: HashGraph, fronts: Seq<Seq<u64>>, widths: Seq<usize>) -> bool {
    &&& widths.len() == fronts.len()
    &&& forall|i: int| 0 <= i < fronts.len() ==> widths[i] == fronts[i].len()
    &&& forall|i: int| 0 <= i < fronts.len() ==> strictly_sorted(fronts[i])
    &&& (!has_handles(g) ==> fronts.len() == 0)
    &&& (has_handles(g) ==> fronts.len() >= 1 && fronts[0].len() == 1 && is_min_handle(
        g,
        fronts[0][0],
    ))
    &&& forall|i: int| #![trigger fronts[i]]
        0 <= i < fronts.len() - 1 ==> is_next_frontier(g, fronts[i], fronts[i + 1])
            && fronts[i + 1].len() > 0
    &&& (fronts.len() > 0 ==> forall|x: u64| !next_frontier_set(g, fronts.last()).contains(x))
}

/// Matching prefixes: two frontier decompositions of one graph agree at
/// every depth both of them reach.
proof fn lemma_fronts_prefix(
    g: HashGraph,
    f1: Seq<Seq<u64>>,
    w1: Seq<usize>,
    f2: Seq<Seq<u64>>,
    w2: Seq<usize>,
    i: int,
)
    requires
        widths_post(g, f1, w1),
        widths_post(g, f2, w2),
        0 <= i < f1.len(),
        i < f2.len(),
    ensures
        f1[i] == f2[i],
    decreases i,
{
    if i == 0 {
        assert(has_handles(g)) by {
            assert(graph_handles(g).contains(f1[0][0]));
        }
        assert(f1[0][0] == f2[0][0]);
        assert(f1[0] =~= f2[0]);
    } else {
        lemma_fronts_prefix(g, f1, w1, f2, w2, i - 1);
        lemma_advance_deterministic(g, f1[i - 1], f1[i], f2[i]);
    }
}

/// The full traversal is deterministic: a graph has exactly one frontier
/// decomposition and one width sequence, so re-running the pipeline on an
/// unchanged graph yields identical results.
pub proof fn lemma_bfs_deterministic(
    g: HashGraph,
    f1: Seq<Seq<u64>>,
    w1: Seq<usize>,
    f2: Seq<Seq<u64>>,
    w2: Seq<usize>,
)
    requires
        widths_post(g, f1, w1),
        widths_post(g, f2, w2),
    ensures
        f1 == f2,
        w1 == w2,
{
    if !has_handles(g) {
        assert(f1 =~= f2);
        assert(w1 =~= w2);
    } else {
        if f1.len() < f2.len() {
            let n = f1.len() as int;
            lemma_fronts_prefix(g, f1, w1, f2, w2, n - 1);
            assert(is_next_frontier(g, f2[n - 1], f2[n]) && f2[n].len() > 0);
            assert(f2[n].contains(f2[n][0]));
            assert(next_frontier_set(g, f1.last()).contains(f2[n][0]));
        }
        if f2.len() < f1.len() {
            let n = f2.len() as int;
            lemma_fronts_prefix(g, f1, w1, f2, w2, n - 1);
            assert(is_next_frontier(g, f1[n - 1], f1[n]) && f1[n].len() > 0);
            assert(f1[n].contains(f1[n][0]));
            assert(next_frontier_set(g, f2.last()).contains(f1[n][0]));
        }
        assert(f1.len() == f2.len());
        assert forall|i: int| 0 <= i < f1.len() implies f1[i] == f2[i] by {
            lemma_fronts_prefix(g, f1, w1, f2, w2, i);
        }
        assert(f1 =~= f2);
        assert(w1 =~= w2);
    }
}

/// A graph with no handles has no frontiers, no widths and no bubbles.
pub proof fn lemma_empty_graph_no_bubbles(g: HashGraph, fronts: Seq<Seq<u64>>, widths: Seq<usize>)
    requires
        widths_post(g, fronts, widths),
        !has_handles(g),
    ensures
        fronts.len() == 0,
        widths.len() == 0,
        bubbles_of(widths) == Seq::<Bubble>::empty(),
{
    assert(bubbles_of(widths) =~= Seq::<Bubble>::empty());
}

/// A width sequence with no level transition (a lone root) yields no
/// bubbles.
pub proof fn lemma_single_level_no_bubbles(widths: Seq<usize>)
    requires
        widths.len() <= 1,
    ensures
        bubbles_of(widths) == Seq::<Bubble>::empty(),
{
    assert(bubbles_of(widths) =~= Seq::<Bubble>::empty());
}

/// The truncating zip: the matcher emits exactly as many bubbles as the
/// shorter of the two boundary collections holds, dropping the surplus of
/// the longer one.
pub proof fn lemma_truncating_zip(widths: Seq<usize>)
    ensures
        bubbles_of(widths).len() == if opens_upto(widths, widths.len() - 1).len() <= closes_upto(
            widths,
            widths.len() - 1,
        ).len() {
            opens_upto(widths, widths.len() - 1).len()
        } else {
            closes_upto(widths, widths.len() - 1).len()
        },
{
}

/// Builds the width sequence of the graph: starting from the lone root
/// frontier, repeatedly advances the frontier while it stays nonempty, and
/// records each frontier and its width. Requires every node identifier to
/// be packable into a handle: the provider's handle iterator panics
/// otherwise. `find_bubbles` tests that first and is total.
pub fn build_widths(g: &HashGraph) -> (r: (Vec<Vec<u64>>, Vec<usize>))
    requires
        graph_ids_packable(*g),
    ensures
        widths_post(*g, fronts_view(r.0@), r.1@),
{
    let mut fronts: Vec<Vec<u64>> = Vec::new();
    let mut widths: Vec<usize> = Vec::new();
    let handles_s = sorted_vec(handles_vec(g));
    if handles_s.len() == 0 {
        assert forall|x: u64| !graph_handles(*g).contains(x) by {
            if graph_handles(*g).contains(x) {
                assert(handles_s@.contains(x));
            }
        }
        assert(fronts_view(fronts@) =~= Seq::<Seq<u64>>::empty());
        return (fronts, widths);
    }
    let root = handles_s[0];
    assert(is_min_handle(*g, root)) by {
        assert(handles_s@.contains(handles_s@[0]));
        assert forall|x: u64| graph_handles(*g).contains(x) implies root <= x by {
            assert(handles_s@.contains(x));
            let j = choose|j: int| 0 <= j < handles_s@.len() && handles_s@[j] == x;
            assert(handles_s@[0] <= handles_s@[j]);
        }
    }
    let mut cur: Vec<u64> = Vec::new();
    cur.push(root);
    let first = copy_vec(&cur);
    fronts.push(first);
    widths.push(1);
    let mut next = advance_bfs(g, &cur);
    while next.len() > 0
        invariant
            fronts@.len() == widths@.len(),
            fronts@.len() >= 1,
            forall|i: int| 0 <= i < fronts@.len() ==> widths@[i] == fronts_view(fronts@)[i].len(),
            forall|i: int| 0 <= i < fronts@.len() ==> strictly_sorted(fronts_view(fronts@)[i]),
            fronts_view(fronts@)[0].len() == 1 && fronts_view(fronts@)[0][0] == root,
            is_min_handle(*g, root),
            forall|i: int| #![trigger fronts_view(fronts@)[i]]
                0 <= i < fronts@.len() - 1 ==> is_next_frontier(
                    *g,
                    fronts_view(fronts@)[i],
                    fronts_view(fronts@)[i + 1],
                ) && fronts_view(fronts@)[i + 1].len() > 0,
            cur@ == fronts_view(fronts@).last(),
            cur@.len() > 0,
            strictly_sorted(cur@),
            is_next_frontier(*g, cur@, next@),
        decreases u64::MAX - cur@[0],
    {
        proof {
            assert(next@.contains(next@[0]));
            let j = choose|j: int|
                0 <= j < cur@.len() && kept_succ(*g, cur@[j]).contains(next@[0]);
            assert(cur@[0] <= cur@[j]);
            assert(next@[0] > cur@[0]);
        }
        let next_copy = copy_vec(&next);
        let ghost old_fronts = fronts@;
        fronts.push(next_copy);
        widths.push(next.len());
        assert(fronts_view(fronts@) =~= fronts_view(old_fronts).push(next@));
        cur = next;
        next = advance_bfs(g, &cur);
    }
    assert forall|x: u64| !next_frontier_set(*g, fronts_view(fronts@).last()).contains(x) by {
        if next_frontier_set(*g, cur@).contains(x) {
            assert(next@.contains(x));
        }
    }
    assert(has_handles(*g)) by {
        assert(graph_handles(*g).contains(root));
    }
    (fronts, widths)
}

/// Runs the whole pipeline on a graph: builds the width sequence and
/// matches its transitions into bubbles. Returns `None` in exactly two
/// situations, both machine limits: a node identifier that cannot be packed
/// into a handle (at or above 2^63, where the provider's iterators panic),
/// or a width sequence whose synthetic identifiers would exceed `u64`. On
/// every other graph the bubble list is returned.
pub fn find_bubbles(graph: &HashGraph) -> (r: Option<Vec<Bubble>>)
    ensures
        !graph_ids_packable(*graph) ==> r is None,
        graph_ids_packable(*graph) ==> exists|fronts: Seq<Seq<u64>>, widths: Seq<usize>|
            #[trigger] widths_post(*graph, fronts, widths),
        graph_ids_packable(*graph) ==> forall|fronts: Seq<Seq<u64>>, widths: Seq<usize>|
            #[trigger] widths_post(*graph, fronts, widths) ==> (r is Some <==> counter_fits(
                widths,
            )) && (r is Some ==> r.unwrap()@ == bubbles_of(widths)),
{
    if !ids_packable(graph) {
        return None;
    }
    let (fronts, widths) = build_widths(graph);
    let fits = widths_fit(&widths);
    let r: Option<Vec<Bubble>> = if fits {
        Some(match_bubbles(&widths))
    } else {
        None
    };
    proof {
        assert forall|f2: Seq<Seq<u64>>, w2: Seq<usize>|
            #[trigger] widths_post(*graph, f2, w2) implies (r is Some <==> counter_fits(w2)) && (
        r is Some ==> r.unwrap()@ == bubbles_of(w2)) by {
            lemma_bfs_deterministic(*graph, fronts_view(fronts@), widths@, f2, w2);
        }
    }
    r
}

/// Collects the graph's edge list as pairs of packed handle values, for a
/// persistence consumer. Returns `None` exactly when some node identifier
/// cannot be packed into a handle (at or above 2^63), where the provider's
/// edge iterator would panic.
pub fn collect_edges(graph: &HashGraph) -> (r: Option<Vec<(u64, u64)>>)
    ensures
        r is Some <==> graph_ids_packable(*graph),
        r is Some ==> (forall|e: (u64, u64)|
            r.unwrap()@.contains(e) <==> graph_edges(*graph).contains(e)),
{
    if ids_packable(graph) {
        Some(edges_vec(graph))
    } else {
        None
    }
}

} // verus!
