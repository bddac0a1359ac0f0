//! The search engine: a priority frontier ordered by heuristic cost, a
//! visited table keyed by board fingerprint with shortest-known depths and
//! predecessor steps, greedy best-first exploration, and solution-path
//! reconstruction.

use crate::board::Direction;
use crate::board::Puzzle;
use std::collections::HashMap;
use vstd::prelude::*;

verus! {

use crate::board::apply_dirs;
use crate::board::can_apply;
use crate::board::dir_of;
use crate::board::grid_fp;
use crate::board::grid_uniq;
use crate::board::invert;
use crate::board::invert_path;
use crate::board::lemma_apply_push;
use crate::board::lemma_moves_reversible;
use crate::board::lemma_pow16_values;
use crate::board::lemma_slide_changes;
use crate::board::lemma_slide_roundtrip;
use crate::board::lemma_slide_wf;
use crate::board::lemma_uniq_injective;
use crate::board::lemma_uniq_upto_bounds;
use crate::board::render_spec;
use crate::board::spec_dir_of;
use crate::board::spec_slide;
use crate::board::spec_slide_legal;

/// One visited-table entry: the shortest known number of moves from the
/// root to this state, and the step that reached it — the predecessor's
/// fingerprint and the direction moved from there — or no step for the root.
#[derive(Clone, Copy, Debug)]
pub struct SolutionLink {
    pub depth: usize,
    pub step: Option<(u64, Direction)>,
}

/// One event of the trace stream the search emits, in emission order.
#[derive(Debug)]
pub enum TraceEvent {
    /// A state seen for the first time, with its rendering and whether it
    /// is the solved state. The first node of the stream is the root.
    Node { fp: u64, label: String, solved: bool },
    /// An observed transition between two states.
    Edge { from: u64, to: u64 },
    /// One step of the reconstructed solution, in root-to-goal order.
    SolutionEdge { from: u64, to: u64, dir: Direction },
}

/// What a search run returns: the trace events in order, and on success the
/// reconstructed path — each element a predecessor fingerprint and the
/// direction taken from it, goal end first.
pub struct SearchResult {
    pub events: Vec<TraceEvent>,
    pub solution: Option<Vec<(u64, Direction)>>,
}

/// The frontier ordering: lower heuristic cost pops first, ties broken by
/// fingerprint ascending.
pub open spec fn frontier_le(a: Puzzle, b: Puzzle) -> bool {
    a.cost < b.cost || (a.cost == b.cost && grid_uniq(a.grid) <= grid_uniq(b.grid))
}

/// Strict version of the frontier ordering.
pub open spec fn frontier_lt(a: Puzzle, b: Puzzle) -> bool {
    a.cost < b.cost || (a.cost == b.cost && grid_uniq(a.grid) < grid_uniq(b.grid))
}

/// Compares two boards in frontier order: cost first, fingerprint second.
fn before(a: &Puzzle, b: &Puzzle) -> (r: bool)
    requires
        a.wf(),
        b.wf(),
    ensures
        r == frontier_lt(*a, *b),
{
    if a.cost < b.cost {
        true
    } else if a.cost == b.cost {
        a.uniq() < b.uniq()
    } else {
        false
    }
}

/// Removes and returns the minimum of the frontier under the (cost,
/// fingerprint) order: no board that stays behind pops before it. Of equal
/// boards the earliest pushed is taken, so the pop sequence is a function
/// of the pushes alone.
pub fn pop_min(frontier: &mut Vec<Puzzle>) -> (r: Puzzle)
    requires
        old(frontier)@.len() > 0,
        forall|i: int| 0 <= i < old(frontier)@.len() ==> (#[trigger] old(frontier)@[i]).wf(),
    ensures
        r.wf(),
        exists|j: int|
            0 <= j < old(frontier)@.len() && old(frontier)@[j] == r && final(frontier)@ == old(
                frontier,
            )@.remove(j) && (forall|i: int|
                0 <= i < j ==> frontier_lt(r, #[trigger] old(frontier)@[i])),
        forall|i: int|
            0 <= i < final(frontier)@.len() ==> frontier_le(r, #[trigger] final(frontier)@[i]),
{
    let mut best: usize = 0;
    let mut idx: usize = 1;
    while idx < frontier.len()
        invariant
            frontier@.len() > 0,
            forall|i: int| 0 <= i < frontier@.len() ==> (#[trigger] frontier@[i]).wf(),
            best < idx <= frontier@.len(),
            forall|i: int| 0 <= i < idx ==> frontier_le(frontier@[best as int], #[trigger] frontier@[i]),
            forall|i: int| 0 <= i < best ==> frontier_lt(frontier@[best as int], #[trigger] frontier@[i]),
        decreases frontier@.len() - idx,
    {
        if before(&frontier[idx], &frontier[best]) {
            best = idx;
        }
        idx = idx + 1;
    }
    let r = frontier.remove(best);
    proof {
        assert(final(frontier)@ == old(frontier)@.remove(best as int));
        assert forall|i: int| 0 <= i < final(frontier)@.len() implies frontier_le(
            r,
            #[trigger] final(frontier)@[i],
        ) by {
            if i < best {
                assert(final(frontier)@[i] == old(frontier)@[i]);
            } else {
                assert(final(frontier)@[i] == old(frontier)@[i + 1]);
            }
        }
    }
    r
}

/// The visited table is internally consistent: every recorded step points
/// at a present entry of strictly smaller depth.
pub open spec fn table_wf(m: Map<u64, SolutionLink>) -> bool {
    forall|fp: u64|
        #[trigger] m.contains_key(fp) ==> match m[fp].step {
            Some(s) => m.contains_key(s.0) && m[s.0].depth < m[fp].depth,
            None => true,
        }
}

/// `path` is exactly the predecessor chain recorded in `m` from `start`
/// back to an entry with no step: element `i` is the step stored at the
/// `i`-th state of the walk.
pub open spec fn chain_from(m: Map<u64, SolutionLink>, start: u64, path: Seq<(u64, Direction)>) -> bool
    decreases path.len(),
{
    if path.len() == 0 {
        m.contains_key(start) && m[start].step is None
    } else {
        m.contains_key(start) && m[start].step == Some(path[0]) && chain_from(
            m,
            path[0].0,
            path.drop_first(),
        )
    }
}

/// `path` is the predecessor chain recorded in `m` from `start` as far as
/// `next`, which it has reached but not yet consumed.
pub open spec fn chain_to(
    m: Map<u64, SolutionLink>,
    start: u64,
    path: Seq<(u64, Direction)>,
    next: u64,
) -> bool
    decreases path.len(),
{
    if path.len() == 0 {
        next == start
    } else {
        m.contains_key(start) && m[start].step == Some(path[0]) && chain_to(
            m,
            path[0].0,
            path.drop_first(),
            next,
        )
    }
}

proof fn lemma_chain_to_push(
    m: Map<u64, SolutionLink>,
    start: u64,
    path: Seq<(u64, Direction)>,
    next: u64,
    s: (u64, Direction),
)
    requires
        chain_to(m, start, path, next),
        m.contains_key(next),
        m[next].step == Some(s),
    ensures
        chain_to(m, start, path.push(s), s.0),
    decreases path.len(),
{
    if path.len() == 0 {
        assert(path.push(s)[0] == s);
        assert(path.push(s).drop_first() =~= Seq::<(u64, Direction)>::empty());
        assert(chain_to(m, s.0, Seq::<(u64, Direction)>::empty(), s.0));
    } else {
        assert(path.push(s)[0] == path[0]);
        assert(path.push(s).drop_first() =~= path.drop_first().push(s));
        lemma_chain_to_push(m, path[0].0, path.drop_first(), next, s);
    }
}

proof fn lemma_chain_to_from(
    m: Map<u64, SolutionLink>,
    start: u64,
    path: Seq<(u64, Direction)>,
    next: u64,
)
    requires
        chain_to(m, start, path, next),
        m.contains_key(next),
        m[next].step is None,
    ensures
        chain_from(m, start, path),
    decreases path.len(),
{
    if path.len() > 0 {
        lemma_chain_to_from(m, path[0].0, path.drop_first(), next);
    }
}

/// Walks the predecessor links of the visited table backward from `start`,
/// accumulating each recorded (predecessor, direction) step, until the
/// entry with no predecessor — the root — is reached. The result is the
/// recorded chain; reversed, it is the move sequence from the root.
pub fn collect(visited: HashMap<u64, SolutionLink>, start: u64) -> (path: Vec<(u64, Direction)>)
    requires
        table_wf(visited@),
        visited@.contains_key(start),
    ensures
        chain_from(visited@, start, path@),
{
    let mut next = start;
    let mut path: Vec<(u64, Direction)> = Vec::new();
    loop
        invariant
            table_wf(visited@),
            visited@.contains_key(next),
            chain_to(visited@, start, path@, next),
        ensures
            chain_from(visited@, start, path@),
        decreases visited@[next].depth,
    {
        let entry = visited.get(&next);
        match entry {
            Some(link) => match link.step {
                Some(step) => {
                    proof {
                        lemma_chain_to_push(visited@, start, path@, next, step);
                    }
                    next = step.0;
                    path.push(step);
                },
                None => {
                    proof {
                        lemma_chain_to_from(visited@, start, path@, next);
                    }
                    break;
                },
            },
            None => {
                proof {
                    assert(false);
                }
                break;
            },
        }
    }
    path
}

/// The move sequence a reconstructed path stands for, in root-to-goal
/// order: the directions of the chain, reversed.
pub open spec fn path_dirs(path: Seq<(u64, Direction)>) -> Seq<Direction>
    decreases path.len(),
{
    if path.len() == 0 {
        Seq::empty()
    } else {
        path_dirs(path.drop_first()).push(path[0].1)
    }
}

/// The search invariant tying the visited table to the boards it stands
/// for. `rep` maps each visited fingerprint to its board: the board is well
/// formed and fingerprints to the key; the root is recorded at depth 0 with
/// no step and only it has none; and every other entry's step records a
/// legal slide from its predecessor's board to this entry's board, with
/// strictly increasing depth along the chain.
pub open spec fn search_inv(
    m: Map<u64, SolutionLink>,
    rep: Map<u64, Puzzle>,
    root_fp: u64,
    root: Puzzle,
) -> bool {
    &&& m.contains_key(root_fp)
    &&& m[root_fp].depth == 0
    &&& m[root_fp].step is None
    &&& rep.contains_key(root_fp)
    &&& rep[root_fp] == root
    &&& forall|fp: u64|
        #[trigger] m.contains_key(fp) ==> rep.contains_key(fp) && rep[fp].wf() && grid_uniq(
            rep[fp].grid,
        ) == fp
    &&& forall|fp: u64|
        #[trigger] m.contains_key(fp) ==> match m[fp].step {
            Some(s) => m.contains_key(s.0) && m[s.0].depth < m[fp].depth && spec_slide_legal(
                rep[s.0],
                s.1,
            ) && spec_slide(rep[s.0], s.1) == rep[fp],
            None => fp == root_fp,
        }
}

/// Every recorded depth is below the table's size.
pub open spec fn depth_bound(m: Map<u64, SolutionLink>) -> bool {
    forall|fp: u64| #[trigger] m.contains_key(fp) ==> m[fp].depth < m.len()
}

/// The event announcing the root state: its fingerprint, its rendering, and
/// whether it is already solved.
pub open spec fn root_node_event(e: TraceEvent, root: Puzzle) -> bool {
    match e {
        TraceEvent::Node { fp, label, solved } => fp == grid_uniq(root.grid) && label@
            == render_spec(root.grid) && solved == root.solved(),
        _ => false,
    }
}

/// Some board in the frontier has this fingerprint.
pub open spec fn in_frontier(s: Seq<Puzzle>, fp: u64) -> bool {
    exists|i: int| 0 <= i < s.len() && grid_fp((#[trigger] s[i]).grid) == fp
}

/// Every legal slide from this state's board lands on a state the table
/// already knows.
pub open spec fn expanded(m: Map<u64, SolutionLink>, rep: Map<u64, Puzzle>, fp: u64) -> bool {
    forall|d: Direction|
        spec_slide_legal(rep[fp], d) ==> m.contains_key(
            grid_fp((#[trigger] spec_slide(rep[fp], d)).grid),
        )
}

/// After the minimum is removed from the frontier, every other recorded
/// state is still waiting in the frontier or already expanded, and the
/// remaining fingerprints stay pairwise distinct.
proof fn lemma_pop_keeps_closure(
    m: Map<u64, SolutionLink>,
    rep: Map<u64, Puzzle>,
    f_before: Seq<Puzzle>,
    fsnap: Seq<Puzzle>,
    p0: Puzzle,
    from: u64,
)
    requires
        forall|fp: u64|
            #[trigger] m.contains_key(fp) ==> in_frontier(f_before, fp) || expanded(m, rep, fp),
        forall|i: int, j: int|
            0 <= i < j < f_before.len() ==> grid_fp(f_before[i].grid) != grid_fp(f_before[j].grid),
        from == grid_fp(p0.grid),
        exists|j: int| 0 <= j < f_before.len() && f_before[j] == p0 && fsnap == f_before.remove(j),
    ensures
        forall|i: int, j: int|
            0 <= i < j < fsnap.len() ==> grid_fp(fsnap[i].grid) != grid_fp(fsnap[j].grid),
        forall|fp: u64|
            #[trigger] m.contains_key(fp) && fp != from ==> in_frontier(fsnap, fp) || expanded(
                m,
                rep,
                fp,
            ),
        !in_frontier(fsnap, from),
{
    let j = choose|j: int|
        0 <= j < f_before.len() && f_before[j] == p0 && fsnap == f_before.remove(j);
    assert forall|i: int| 0 <= i < fsnap.len() implies #[trigger] fsnap[i] == (if i < j {
        f_before[i]
    } else {
        f_before[i + 1]
    }) by {}
    assert forall|i1: int, i2: int| 0 <= i1 < i2 < fsnap.len() implies grid_fp(fsnap[i1].grid)
        != grid_fp(fsnap[i2].grid) by {
        assert(fsnap[i1] == (if i1 < j {
            f_before[i1]
        } else {
            f_before[i1 + 1]
        }));
        assert(fsnap[i2] == (if i2 < j {
            f_before[i2]
        } else {
            f_before[i2 + 1]
        }));
    }
    assert forall|i: int| 0 <= i < fsnap.len() implies grid_fp((#[trigger] fsnap[i]).grid)
        != from by {
        let oi = if i < j {
            i
        } else {
            i + 1
        };
        assert(fsnap[i] == f_before[oi]);
        assert(grid_fp(f_before[j].grid) == from);
        if oi < j {
            assert(grid_fp(f_before[oi].grid) != grid_fp(f_before[j].grid));
        } else {
            assert(grid_fp(f_before[j].grid) != grid_fp(f_before[oi].grid));
        }
    }
    assert forall|fp: u64| #[trigger] m.contains_key(fp) && fp != from implies in_frontier(
        fsnap,
        fp,
    ) || expanded(m, rep, fp) by {
        if !expanded(m, rep, fp) {
            assert(in_frontier(f_before, fp));
            let w = choose|w: int|
                0 <= w < f_before.len() && grid_fp((#[trigger] f_before[w]).grid) == fp;
            assert(grid_fp(f_before[j].grid) == from);
            assert(w != j);
            let nw = if w < j {
                w
            } else {
                w - 1
            };
            assert(fsnap[nw] == f_before[w]);
            assert(in_frontier(fsnap, fp));
        }
    }
}

/// Once all four probe directions of a popped board have been recorded in
/// the table, that board's state is expanded.
proof fn lemma_probes_cover_all(
    m: Map<u64, SolutionLink>,
    rep: Map<u64, Puzzle>,
    p0: Puzzle,
    from: u64,
)
    requires
        rep[from] == p0,
        forall|k: int|
            0 <= k < 4 ==> (spec_slide_legal(p0, #[trigger] spec_dir_of(k)) ==> m.contains_key(
                grid_fp(spec_slide(p0, spec_dir_of(k)).grid),
            )),
    ensures
        expanded(m, rep, from),
{
    assert forall|dd: Direction| spec_slide_legal(p0, dd) implies m.contains_key(
        grid_fp((#[trigger] spec_slide(p0, dd)).grid),
    ) by {
        match dd {
            Direction::Left => {
                assert(spec_dir_of(0) == Direction::Left);
                assert(spec_slide_legal(p0, spec_dir_of(0)) ==> m.contains_key(
                    grid_fp(spec_slide(p0, spec_dir_of(0)).grid),
                ));
            },
            Direction::Right => {
                assert(spec_dir_of(1) == Direction::Right);
                assert(spec_slide_legal(p0, spec_dir_of(1)) ==> m.contains_key(
                    grid_fp(spec_slide(p0, spec_dir_of(1)).grid),
                ));
            },
            Direction::Up => {
                assert(spec_dir_of(2) == Direction::Up);
                assert(spec_slide_legal(p0, spec_dir_of(2)) ==> m.contains_key(
                    grid_fp(spec_slide(p0, spec_dir_of(2)).grid),
                ));
            },
            Direction::Down => {
                assert(spec_dir_of(3) == Direction::Down);
                assert(spec_slide_legal(p0, spec_dir_of(3)) ==> m.contains_key(
                    grid_fp(spec_slide(p0, spec_dir_of(3)).grid),
                ));
            },
        }
    }
}

/// Exhaustion is conclusive: if the visited table is consistent, closed
/// under every legal slide, and free of solved boards, then no move
/// sequence from any of its boards ever reaches the solved state.
pub proof fn lemma_closed_set_has_no_solution(
    m: Map<u64, SolutionLink>,
    rep: Map<u64, Puzzle>,
    b: Puzzle,
    fp: u64,
    dirs: Seq<Direction>,
)
    requires
        forall|f: u64|
            #[trigger] m.contains_key(f) ==> rep.contains_key(f) && rep[f].wf() && grid_uniq(
                rep[f].grid,
            ) == f,
        forall|f: u64| #[trigger] m.contains_key(f) ==> expanded(m, rep, f),
        forall|f: u64| #[trigger] m.contains_key(f) ==> !rep[f].solved(),
        m.contains_key(fp),
        rep[fp] == b,
        can_apply(b, dirs),
    ensures
        !apply_dirs(b, dirs).solved(),
    decreases dirs.len(),
{
    if dirs.len() == 0 {
        assert(apply_dirs(b, dirs) == b);
    } else {
        let d = dirs[0];
        let b2 = spec_slide(b, d);
        assert(spec_slide_legal(rep[fp], d));
        assert(m.contains_key(grid_fp((spec_slide(rep[fp], d)).grid)));
        let fp2 = grid_fp(b2.grid);
        lemma_slide_wf(b, d);
        lemma_uniq_upto_bounds(b2.grid, 9);
        lemma_pow16_values();
        assert(grid_uniq(b2.grid) == fp2 as int);
        assert(grid_uniq(rep[fp2].grid) == grid_uniq(b2.grid));
        lemma_uniq_injective(rep[fp2], b2);
        lemma_closed_set_has_no_solution(m, rep, b2, fp2, dirs.drop_first());
    }
}

/// Soundness of reconstruction: under the search invariant, the chain
/// recorded from `start` back to the root stands for a legal move sequence
/// that drives the root board to `start`'s board.
pub proof fn lemma_chain_solves(
    m: Map<u64, SolutionLink>,
    rep: Map<u64, Puzzle>,
    root_fp: u64,
    root: Puzzle,
    start: u64,
    path: Seq<(u64, Direction)>,
)
    requires
        search_inv(m, rep, root_fp, root),
        m.contains_key(start),
        chain_from(m, start, path),
    ensures
        can_apply(root, path_dirs(path)),
        apply_dirs(root, path_dirs(path)) == rep[start],
    decreases path.len(),
{
    if path.len() == 0 {
        assert(m[start].step is None);
        assert(start == root_fp);
    } else {
        let s = path[0];
        assert(m[start].step == Some(s));
        lemma_chain_solves(m, rep, root_fp, root, s.0, path.drop_first());
        lemma_apply_push(root, path_dirs(path.drop_first()), s.1);
        assert(apply_dirs(root, path_dirs(path.drop_first())) == rep[s.0]);
        assert(spec_slide_legal(rep[s.0], s.1));
        assert(apply_dirs(root, path_dirs(path)) == spec_slide(rep[s.0], s.1));
    }
}

/// Greedy best-first search from `root`: pops the cheapest frontier board,
/// probes the four slides in place, deduplicates states by fingerprint in
/// the visited table while keeping the shortest known depth and its
/// predecessor step, and on discovering the solved state reconstructs the
/// path. Returns the trace events and, on success, the path; an exhausted
/// frontier yields no solution. A solved root is detected before any
/// expansion. A returned path, read in reverse, is a sequence of legal
/// slides that really drives `root` to the solved board; it is empty
/// exactly when the root was already solved. Exhaustion is conclusive:
/// when no solution is returned, no sequence of legal slides whatever
/// takes `root` to the solved board.
#[verifier::rlimit(100)]
pub fn solve(root: Puzzle) -> (r: SearchResult)
    requires
        root.wf(),
    ensures
        r.events@.len() >= 1,
        root_node_event(r.events@[0], root),
        root.solved() ==> r.events@.len() == 1 && (r.solution matches Some(path) && path@.len()
            == 0),
        match r.solution {
            Some(path) => can_apply(root, path_dirs(path@)) && apply_dirs(
                root,
                path_dirs(path@),
            ).solved() && (path@.len() == 0 <==> root.solved()),
            None => !root.solved(),
        },
        r.solution is None ==> forall|dirs: Seq<Direction>|
            #[trigger] can_apply(root, dirs) ==> !apply_dirs(root, dirs).solved(),
{
    let root_fp = root.uniq();
    let root_solved = root.is_solved();
    let mut events: Vec<TraceEvent> = Vec::new();
    events.push(TraceEvent::Node { fp: root_fp, label: root.render(), solved: root_solved });
    if root_solved {
        let path: Vec<(u64, Direction)> = Vec::new();
        return SearchResult { events, solution: Some(path) };
    }
    let mut visited: HashMap<u64, SolutionLink> = HashMap::new();
    visited.insert(root_fp, SolutionLink { depth: 0, step: None });
    let ghost mut rep: Map<u64, Puzzle> = Map::empty().insert(root_fp, root);
    proof {
        assert(visited@ =~= Map::<u64, SolutionLink>::empty().insert(
            root_fp,
            (SolutionLink { depth: 0, step: None }),
        ));
        assert(visited@.dom() =~= Set::<u64>::empty().insert(root_fp));
        assert(visited@.len() == 1);
    }
    let mut frontier: Vec<Puzzle> = Vec::new();
    frontier.push(root.clone());
    proof {
        assert(grid_fp(frontier@[0].grid) == root_fp);
        assert(in_frontier(frontier@, root_fp));
    }
    while frontier.len() > 0
        invariant
            root.wf(),
            !root.solved(),
            root_fp == grid_uniq(root.grid),
            search_inv(visited@, rep, root_fp, root),
            depth_bound(visited@),
            visited@.dom().finite(),
            visited@.len() <= usize::MAX,
            forall|i: int|
                0 <= i < frontier@.len() ==> (#[trigger] frontier@[i]).wf()
                    && visited@.contains_key(grid_fp(frontier@[i].grid)) && rep[grid_fp(
                    frontier@[i].grid,
                )] == frontier@[i],
            events@.len() >= 1,
            root_node_event(events@[0], root),
            forall|fp: u64| #[trigger] visited@.contains_key(fp) ==> !rep[fp].solved(),
            forall|fp: u64|
                #[trigger] visited@.contains_key(fp) ==> in_frontier(frontier@, fp) || expanded(
                    visited@,
                    rep,
                    fp,
                ),
            forall|i: int, j: int|
                0 <= i < j < frontier@.len() ==> grid_fp(frontier@[i].grid) != grid_fp(
                    frontier@[j].grid,
                ),
        decreases usize::MAX - visited@.len(), frontier@.len(),
    {
        let ghost f_before = frontier@;
        let mut p = pop_min(&mut frontier);
        let ghost p0 = p;
        let from = p.uniq();
        proof {
            assert(visited@.contains_key(from));
            assert(grid_fp(p0.grid) == from);
            let j = choose|j: int|
                0 <= j < f_before.len() && f_before[j] == p0 && frontier@ == f_before.remove(j)
                    && (forall|i: int| 0 <= i < j ==> frontier_lt(p0, #[trigger] f_before[i]));
            assert(0 <= j < f_before.len() && f_before[j] == p0 && frontier@ == f_before.remove(j));
            lemma_pop_keeps_closure(visited@, rep, f_before, frontier@, p0, from);
        }
        let link_depth: usize = match visited.get(&from) {
            Some(l) => l.depth,
            None => {
                proof {
                    assert(false);
                }
                0
            },
        };
        let next_depth = link_depth + 1;
        let ghost len0 = visited@.len();
        let ghost flen0 = frontier@.len();
        for di in 0..4usize
            invariant
                root.wf(),
                !root.solved(),
                root_fp == grid_uniq(root.grid),
                search_inv(visited@, rep, root_fp, root),
                depth_bound(visited@),
                visited@.dom().finite(),
                visited@.len() <= usize::MAX,
                forall|i: int|
                    0 <= i < frontier@.len() ==> (#[trigger] frontier@[i]).wf()
                        && visited@.contains_key(grid_fp(frontier@[i].grid)) && rep[grid_fp(
                        frontier@[i].grid,
                    )] == frontier@[i],
                events@.len() >= 1,
                root_node_event(events@[0], root),
                p == p0,
                p0.wf(),
                from == grid_uniq(p0.grid),
                visited@.contains_key(from),
                rep.contains_key(from),
                rep[from] == p0,
                visited@[from].depth == link_depth,
                next_depth == link_depth + 1,
                link_depth < visited@.len(),
                (visited@.len() == len0 && frontier@.len() == flen0) || visited@.len() > len0,
                forall|fp: u64| #[trigger] visited@.contains_key(fp) ==> !rep[fp].solved(),
                forall|fp: u64|
                    #[trigger] visited@.contains_key(fp) && fp != from ==> in_frontier(
                        frontier@,
                        fp,
                    ) || expanded(visited@, rep, fp),
                forall|i: int, j: int|
                    0 <= i < j < frontier@.len() ==> grid_fp(frontier@[i].grid) != grid_fp(
                        frontier@[j].grid,
                    ),
                forall|k: int|
                    0 <= k < di ==> (spec_slide_legal(p0, #[trigger] spec_dir_of(k))
                        ==> visited@.contains_key(grid_fp(spec_slide(p0, spec_dir_of(k)).grid))),
        {
            let d = dir_of(di);
            let slid = p.slide(d);
            if slid {
                proof {
                    lemma_slide_changes(p0, d);
                }
                let to = p.uniq();
                let ghost m_iter = visited@;
                let ghost f_iter = frontier@;
                let ghost rep_iter = rep;
                events.push(TraceEvent::Edge { from, to });
                let (is_new, needs_update) = match visited.get(&to) {
                    Some(l) => (false, l.depth > next_depth),
                    None => (true, true),
                };
                if needs_update {
                    proof {
                        if !is_new {
                            lemma_uniq_injective(rep[to], p);
                        }
                    }
                    let ghost m_before = visited@;
                    visited.insert(to, SolutionLink { depth: next_depth, step: Some((from, d)) });
                    proof {
                        if is_new {
                            rep = rep.insert(to, p);
                        }
                        assert(vstd::std_specs::hash::spec_hash_map_len(&visited)
                            == visited@.len());
                        assert(visited@ == m_before.insert(
                            to,
                            (SolutionLink { depth: next_depth, step: Some((from, d)) }),
                        ));
                        assert(visited@.dom() =~= m_before.dom().insert(to));
                        if is_new {
                            assert(visited@.len() == m_before.len() + 1);
                        } else {
                            assert(visited@.len() == m_before.len());
                        }
                    }
                }
                if is_new {
                    let solved = p.is_solved();
                    events.push(TraceEvent::Node { fp: to, label: p.render(), solved });
                    if !solved {
                        frontier.push(p.clone());
                    }
                    if solved {
                        let path = collect(visited, to);
                        proof {
                            lemma_chain_solves(visited@, rep, root_fp, root, to, path@);
                            if path@.len() == 0 {
                                assert(visited@[to].step is None);
                                assert(false);
                            }
                        }
                        let mut i = path.len();
                        while i > 0
                            invariant
                                i <= path@.len(),
                                events@.len() >= 1,
                                root_node_event(events@[0], root),
                            decreases i,
                        {
                            i = i - 1;
                            let step = path[i];
                            let to_fp = if i == 0 {
                                to
                            } else {
                                path[i - 1].0
                            };
                            events.push(TraceEvent::SolutionEdge {
                                from: step.0,
                                to: to_fp,
                                dir: step.1,
                            });
                        }
                        return SearchResult { events, solution: Some(path) };
                    }
                }
                let und = invert(d);
                proof {
                    lemma_slide_roundtrip(p0, d);
                }
                let _restored = p.slide(und);
                proof {
                    let q = spec_slide(p0, d);
                    assert(visited@.contains_key(to));
                    assert(grid_fp(q.grid) == to);
                    assert(to != from);
                    assert(d == spec_dir_of(di as int));
                    assert forall|x: u64| #[trigger] m_iter.contains_key(x)
                        implies visited@.contains_key(x) by {}
                    assert forall|fp: u64|
                        #[trigger] visited@.contains_key(fp) && fp != from implies in_frontier(
                        frontier@,
                        fp,
                    ) || expanded(visited@, rep, fp) by {
                        if fp == to {
                            if is_new {
                                assert(frontier@ == f_iter.push(q));
                                assert(grid_fp((frontier@[frontier@.len() - 1]).grid) == to);
                                assert(in_frontier(frontier@, to));
                            } else {
                                assert(m_iter.contains_key(to));
                                if !expanded(m_iter, rep_iter, to) {
                                    assert(in_frontier(f_iter, to));
                                    let w = choose|w: int|
                                        0 <= w < f_iter.len() && grid_fp(
                                            (#[trigger] f_iter[w]).grid,
                                        ) == to;
                                    assert(frontier@[w] == f_iter[w]);
                                    assert(in_frontier(frontier@, to));
                                } else {
                                    assert(rep == rep_iter);
                                    assert(expanded(visited@, rep, to));
                                }
                            }
                        } else {
                            assert(m_iter.contains_key(fp));
                            if !expanded(m_iter, rep_iter, fp) {
                                assert(in_frontier(f_iter, fp));
                                let w = choose|w: int|
                                    0 <= w < f_iter.len() && grid_fp((#[trigger] f_iter[w]).grid)
                                        == fp;
                                assert(frontier@[w] == f_iter[w]);
                                assert(in_frontier(frontier@, fp));
                            } else {
                                assert(rep[fp] == rep_iter[fp]);
                                assert(expanded(visited@, rep, fp));
                            }
                        }
                    }
                    assert forall|i1: int, i2: int| 0 <= i1 < i2 < frontier@.len() implies grid_fp(
                        frontier@[i1].grid,
                    ) != grid_fp(frontier@[i2].grid) by {
                        if i2 < f_iter.len() {
                            assert(frontier@[i1] == f_iter[i1] && frontier@[i2] == f_iter[i2]);
                        } else {
                            assert(frontier@[i1] == f_iter[i1]);
                            assert(grid_fp(frontier@[i2].grid) == to);
                            assert(m_iter.contains_key(grid_fp(f_iter[i1].grid)));
                        }
                    }
                    assert forall|fp: u64| #[trigger] visited@.contains_key(fp)
                        implies !(rep[fp].solved()) by {
                        if fp == to && is_new {
                            assert(rep[to] == q);
                        } else {
                            assert(m_iter.contains_key(fp));
                            assert(rep[fp] == rep_iter[fp]);
                        }
                    }
                }
            }
        }
        proof {
            lemma_probes_cover_all(visited@, rep, p0, from);
        }
    }
    proof {
        assert forall|dirs: Seq<Direction>| #[trigger] can_apply(root, dirs) implies !apply_dirs(
            root,
            dirs,
        ).solved() by {
            assert forall|f: u64| #[trigger] visited@.contains_key(f) implies expanded(
                visited@,
                rep,
                f,
            ) by {
                assert(!in_frontier(frontier@, f));
            }
            lemma_closed_set_has_no_solution(visited@, rep, root, root_fp, dirs);
        }
    }
    SearchResult { events, solution: None }
}

/// Builds the solved board, scrambles it with the given walk length and
/// seed, and searches from there. A scrambled board is reachable from the
/// solved one, its moves can be undone, and exhaustion is conclusive — so
/// this search always returns a solution, and one that really solves the
/// scrambled board.
pub fn scramble_and_solve(moves: u8, seed: u64) -> (r: SearchResult)
    ensures
        r.solution is Some,
        r.events@.len() >= 1,
        r.solution matches Some(path) ==> exists|root: Puzzle|
            #[trigger] root_node_event(r.events@[0], root) && can_apply(root, path_dirs(path@))
                && apply_dirs(root, path_dirs(path@)).solved(),
{
    let mut p = Puzzle::new();
    let ghost start = p;
    p.scramble(moves, seed);
    let ghost root = p;
    let r = solve(p);
    proof {
        let dirs = choose|dirs: Seq<Direction>|
            #[trigger] can_apply(start, dirs) && apply_dirs(start, dirs) == root;
        lemma_moves_reversible(start, dirs);
        if r.solution is None {
            assert(can_apply(root, invert_path(dirs)));
            assert(apply_dirs(root, invert_path(dirs)).solved());
            assert(false);
        }
    }
    r
}

} // verus!
