//! The game tree below a state, as the solver explores it: the best score
//! reachable, the fewest picks that reach it, the fewest picks that upload
//! every daemon, and how many runs end below it; that these are what the runs
//! of the game reach; and why states that share a memo key share their tree.

use vstd::prelude::*;
use crate::engine::{Cell, ConstraintMode, EngineView, appears_in, line_cells, window_matches, overlaps, longest_overlap_upto, lemma_after_move_wf, lemma_derived_ignores_terminal};
use crate::laws::{lemma_appears_after_push, lemma_play_first, play};

verus! {

/// What the tree below a state holds: the best score reachable, the fewest
/// picks (counted from the start of the run) after which it is reached, the
/// fewest picks after which every daemon is uploaded, if any run does so, and
/// how many runs end below it: all of them, those that upload every daemon,
/// and those that end on the best score; and the sum of the final scores of
/// all those runs.
pub struct TreeOutcome {
    pub best: int,
    pub best_moves: int,
    pub all_moves: Option<int>,
    pub paths: nat,
    pub full_paths: nat,
    pub best_paths: nat,
    pub score_total: int,
}

/// How many picks the buffer still has room for.
pub open spec fn room(v: EngineView) -> int {
    v.buffer_size - v.buffer.len()
}

/// A state the tree stops at, on its own score and length.
pub open spec fn leaf_outcome(v: EngineView) -> TreeOutcome {
    TreeOutcome {
        best: v.score(),
        best_moves: v.buffer.len() as int,
        all_moves: if v.all_uploaded() { Some(v.buffer.len() as int) } else { None },
        paths: 1,
        full_paths: if v.all_uploaded() { 1 } else { 0 },
        best_paths: 1,
        score_total: v.score(),
    }
}

/// The tree below a state with room and no legal pick left.
pub open spec fn stuck_outcome(v: EngineView) -> TreeOutcome {
    TreeOutcome { best: v.score(), best_moves: v.buffer.len() as int, all_moves: None, paths: 1, full_paths: 0, best_paths: 1, score_total: v.score() }
}

/// The smaller of two optional counts, ignoring a missing one.
pub open spec fn min_opt(a: Option<int>, b: Option<int>) -> Option<int> {
    match (a, b) {
        (Some(x), Some(y)) => Some(if x <= y { x } else { y }),
        (Some(x), None) => Some(x),
        (None, Some(y)) => Some(y),
        (None, None) => None,
    }
}

/// Folds one child's tree into what the earlier children gave.
pub open spec fn merge(acc: TreeOutcome, child: TreeOutcome) -> TreeOutcome {
    let all_moves = if child.all_moves is Some { min_opt(acc.all_moves, child.all_moves) } else { acc.all_moves };
    let paths = acc.paths + child.paths;
    let full_paths = acc.full_paths + child.full_paths;
    let score_total = acc.score_total + child.score_total;
    if child.best > acc.best {
        TreeOutcome { best: child.best, best_moves: child.best_moves, all_moves, paths, full_paths, best_paths: child.best_paths, score_total }
    } else if child.best == acc.best {
        TreeOutcome {
            best: acc.best,
            best_moves: if child.best_moves < acc.best_moves { child.best_moves } else { acc.best_moves },
            all_moves,
            paths,
            full_paths,
            best_paths: acc.best_paths + child.best_paths,
            score_total,
        }
    } else {
        TreeOutcome { all_moves, paths, full_paths, score_total, ..acc }
    }
}

/// Whether the tree goes on below `v`: the run is not over and has room.
pub open spec fn goes_on(v: EngineView) -> bool {
    v.terminal is None && v.buffer.len() < v.buffer_size
}

/// The tree below `v`.
pub open spec fn tree_outcome(v: EngineView) -> TreeOutcome
    decreases room(v), 1int, 0int,
{
    if !goes_on(v) {
        leaf_outcome(v)
    } else if v.legal_list().len() == 0 {
        stuck_outcome(v)
    } else {
        merge_children(v, v.legal_list().len() as int)
    }
}

/// The trees below the first `k` legal picks of `v`, folded in pick order onto
/// the state's own score and length.
pub open spec fn merge_children(v: EngineView, k: int) -> TreeOutcome
    decreases room(v), 0int, k,
{
    if k <= 0 || !goes_on(v) || k > v.legal_list().len() {
        TreeOutcome { best: v.score(), best_moves: v.buffer.len() as int, all_moves: None, paths: 0, full_paths: 0, best_paths: 0, score_total: 0 }
    } else {
        merge(merge_children(v, k - 1), tree_outcome(v.after_move(v.legal_list()[k - 1])))
    }
}

/// How many states the tree below `v` has, `v` included: one for a state the
/// tree stops at, else one more than its children's trees together.
pub open spec fn tree_size(v: EngineView) -> nat
    decreases room(v), 1int, 0int,
{
    if !goes_on(v) || v.legal_list().len() == 0 {
        1
    } else {
        1 + children_size(v, v.legal_list().len() as int)
    }
}

/// How many states the trees below the first `k` legal picks of `v` have together.
pub open spec fn children_size(v: EngineView, k: int) -> nat
    decreases room(v), 0int, k,
{
    if k <= 0 || !goes_on(v) || k > v.legal_list().len() {
        0
    } else {
        children_size(v, k - 1) + tree_size(v.after_move(v.legal_list()[k - 1]))
    }
}

/// The children's trees together grow with the number of children counted.
pub proof fn lemma_children_size_grows(v: EngineView, j: int, k: int)
    requires
        goes_on(v),
        0 <= j <= k <= v.legal_list().len(),
    ensures
        children_size(v, j) <= children_size(v, k),
    decreases k - j,
{
    if j < k {
        lemma_children_size_grows(v, j, k - 1);
    }
}

/// At least one run ends below every state.
pub proof fn lemma_tree_has_a_path(v: EngineView)
    ensures
        tree_outcome(v).paths >= 1,
    decreases room(v), 1int, 0int,
{
    if goes_on(v) && v.legal_list().len() > 0 {
        lemma_children_paths_grow(v, v.legal_list().len() as int - 1, v.legal_list().len() as int);
    }
}

/// The runs below the first `j` children are no more than those below the
/// first `k`, and the `k`-th child's runs are among the latter.
pub proof fn lemma_children_paths_grow(v: EngineView, j: int, k: int)
    requires
        goes_on(v),
        0 <= j <= k <= v.legal_list().len(),
    ensures
        merge_children(v, j).paths <= merge_children(v, k).paths,
        k >= 1 ==> tree_outcome(v.after_move(v.legal_list()[k - 1])).paths >= 1,
        k >= 1 ==> merge_children(v, k).paths >= 1,
    decreases room(v), 0int, k,
{
    if k >= 1 {
        lemma_tree_has_a_path(v.after_move(v.legal_list()[k - 1]));
        if j < k {
            lemma_children_paths_grow(v, j, k - 1);
        }
    }
}

/// How many runs from `v` end on the final score `s`.
pub open spec fn runs_ending_on(v: EngineView, s: int) -> nat
    decreases room(v), 1int, 0int,
{
    if !goes_on(v) || v.legal_list().len() == 0 {
        if v.score() == s { 1 } else { 0 }
    } else {
        children_runs_ending_on(v, v.legal_list().len() as int, s)
    }
}

/// How many runs below the first `k` legal picks of `v` end on the final score `s`.
pub open spec fn children_runs_ending_on(v: EngineView, k: int, s: int) -> nat
    decreases room(v), 0int, k,
{
    if k <= 0 || !goes_on(v) || k > v.legal_list().len() {
        0
    } else {
        children_runs_ending_on(v, k - 1, s) + runs_ending_on(v.after_move(v.legal_list()[k - 1]), s)
    }
}

/// The runs that the tree below `v` counts as ending on its best score are
/// exactly the runs from `v` whose final score is that best, no run ends
/// above it, and they are among all the runs.
pub proof fn law_best_runs_are_counted(v: EngineView)
    ensures
        tree_outcome(v).best_paths == runs_ending_on(v, tree_outcome(v).best),
        forall|s: int| s > tree_outcome(v).best ==> #[trigger] runs_ending_on(v, s) == 0,
        tree_outcome(v).best_paths <= tree_outcome(v).paths,
    decreases room(v), 1int, 0int,
{
    if goes_on(v) && v.legal_list().len() > 0 {
        lemma_children_best_runs(v, v.legal_list().len() as int);
        assert forall|s: int| s > tree_outcome(v).best implies #[trigger] runs_ending_on(v, s) == 0 by {
            assert(runs_ending_on(v, s) == children_runs_ending_on(v, v.legal_list().len() as int, s));
        }
    }
}

/// The fold of the first `k` children counts the runs below them that end on its best.
proof fn lemma_children_best_runs(v: EngineView, k: int)
    requires
        goes_on(v),
        0 <= k <= v.legal_list().len(),
    ensures
        merge_children(v, k).best_paths == children_runs_ending_on(v, k, merge_children(v, k).best),
        forall|s: int| s > merge_children(v, k).best ==> #[trigger] children_runs_ending_on(v, k, s) == 0,
        merge_children(v, k).best_paths <= merge_children(v, k).paths,
    decreases room(v), 0int, k,
{
    if k > 0 {
        lemma_children_best_runs(v, k - 1);
        let c = v.after_move(v.legal_list()[k - 1]);
        law_best_runs_are_counted(c);
        let acc = merge_children(v, k - 1);
        let child = tree_outcome(c);
        assert(children_runs_ending_on(v, k - 1, child.best) + runs_ending_on(c, child.best)
            == children_runs_ending_on(v, k, child.best));
        assert(children_runs_ending_on(v, k - 1, acc.best) + runs_ending_on(c, acc.best)
            == children_runs_ending_on(v, k, acc.best));
        assert forall|s: int| s > merge_children(v, k).best implies #[trigger] children_runs_ending_on(v, k, s) == 0 by {
            assert(children_runs_ending_on(v, k - 1, s) + runs_ending_on(c, s) == children_runs_ending_on(v, k, s));
            assert(children_runs_ending_on(v, k - 1, s) == 0);
            assert(runs_ending_on(c, s) == 0);
        }
    }
}

/// Some run below `v` uploads every daemon exactly where the tree counts a
/// run that does so, and such runs are among all the runs.
pub proof fn law_solutions_iff_solvable(v: EngineView)
    ensures
        (tree_outcome(v).full_paths > 0) == (tree_outcome(v).all_moves is Some),
        tree_outcome(v).full_paths <= tree_outcome(v).paths,
    decreases room(v), 1int, 0int,
{
    if goes_on(v) && v.legal_list().len() > 0 {
        lemma_children_solutions(v, v.legal_list().len() as int);
    }
}

/// The fold of the first `k` children counts a run that uploads every daemon
/// exactly where it has a fewest-picks count for that.
proof fn lemma_children_solutions(v: EngineView, k: int)
    requires
        goes_on(v),
        0 <= k <= v.legal_list().len(),
    ensures
        (merge_children(v, k).full_paths > 0) == (merge_children(v, k).all_moves is Some),
        merge_children(v, k).full_paths <= merge_children(v, k).paths,
    decreases room(v), 0int, k,
{
    if k > 0 {
        lemma_children_solutions(v, k - 1);
        law_solutions_iff_solvable(v.after_move(v.legal_list()[k - 1]));
    }
}

/// How many runs there are from `v`: one where the run stops at `v`, else
/// those below each legal pick together.
pub open spec fn run_count(v: EngineView) -> nat
    decreases room(v), 1int, 0int,
{
    if !goes_on(v) || v.legal_list().len() == 0 {
        1
    } else {
        children_run_count(v, v.legal_list().len() as int)
    }
}

/// How many runs there are below the first `k` legal picks of `v`.
pub open spec fn children_run_count(v: EngineView, k: int) -> nat
    decreases room(v), 0int, k,
{
    if k <= 0 || !goes_on(v) || k > v.legal_list().len() {
        0
    } else {
        children_run_count(v, k - 1) + run_count(v.after_move(v.legal_list()[k - 1]))
    }
}

/// How many runs from `v` end with every daemon uploaded.
pub open spec fn full_run_count(v: EngineView) -> nat
    decreases room(v), 1int, 0int,
{
    if !goes_on(v) || v.legal_list().len() == 0 {
        if v.all_uploaded() { 1 } else { 0 }
    } else {
        children_full_run_count(v, v.legal_list().len() as int)
    }
}

/// How many runs below the first `k` legal picks of `v` end with every daemon uploaded.
pub open spec fn children_full_run_count(v: EngineView, k: int) -> nat
    decreases room(v), 0int, k,
{
    if k <= 0 || !goes_on(v) || k > v.legal_list().len() {
        0
    } else {
        children_full_run_count(v, k - 1) + full_run_count(v.after_move(v.legal_list()[k - 1]))
    }
}

/// The tree below a state of a run counts every run from it, and among them
/// exactly those that end with every daemon uploaded.
pub proof fn law_runs_are_counted(v: EngineView)
    requires
        in_run(v),
    ensures
        tree_outcome(v).paths == run_count(v),
        tree_outcome(v).full_paths == full_run_count(v),
    decreases room(v), 1int, 0int,
{
    if goes_on(v) && v.legal_list().len() > 0 {
        lemma_children_runs_counted(v, v.legal_list().len() as int);
    } else if goes_on(v) {
        assert(!v.all_uploaded());
    }
}

/// The fold of the first `k` children counts their runs, and those that upload every daemon.
proof fn lemma_children_runs_counted(v: EngineView, k: int)
    requires
        in_run(v),
        goes_on(v),
        0 <= k <= v.legal_list().len(),
    ensures
        merge_children(v, k).paths == children_run_count(v, k),
        merge_children(v, k).full_paths == children_full_run_count(v, k),
    decreases room(v), 0int, k,
{
    if k > 0 {
        lemma_children_runs_counted(v, k - 1);
        lemma_legal_list_legal(v, k - 1);
        lemma_in_run_step(v, v.legal_list()[k - 1]);
        law_runs_are_counted(v.after_move(v.legal_list()[k - 1]));
    }
}

/// The larger of two counts.
pub open spec fn max_nat(a: nat, b: nat) -> nat {
    if a >= b { a } else { b }
}

/// The most legal picks at a state of the tree below `v` where the run goes
/// on with a pick to make, 0 where there is no such state.
pub open spec fn tree_max_branch(v: EngineView) -> nat
    decreases room(v), 1int, 0int,
{
    if !goes_on(v) || v.legal_list().len() == 0 {
        0
    } else {
        max_nat(v.legal_list().len(), children_max_branch(v, v.legal_list().len() as int))
    }
}

/// The most legal picks at a state of the trees below the first `k` legal picks of `v`.
pub open spec fn children_max_branch(v: EngineView, k: int) -> nat
    decreases room(v), 0int, k,
{
    if k <= 0 || !goes_on(v) || k > v.legal_list().len() {
        0
    } else {
        max_nat(children_max_branch(v, k - 1), tree_max_branch(v.after_move(v.legal_list()[k - 1])))
    }
}

/// Some state of the tree below `v` has a trap: a legal pick whose tree's
/// best score is not the best of that state's tree.
pub open spec fn tree_has_trap(v: EngineView) -> bool
    decreases room(v), 1int, 0int,
{
    if !goes_on(v) || v.legal_list().len() == 0 {
        false
    } else {
        children_worse(v, v.legal_list().len() as int, tree_outcome(v).best)
            || children_trap(v, v.legal_list().len() as int)
    }
}

/// Some tree below the first `k` legal picks of `v` has a trap.
pub open spec fn children_trap(v: EngineView, k: int) -> bool
    decreases room(v), 0int, k,
{
    if k <= 0 || !goes_on(v) || k > v.legal_list().len() {
        false
    } else {
        children_trap(v, k - 1) || tree_has_trap(v.after_move(v.legal_list()[k - 1]))
    }
}

/// One of the first `k` legal picks of `v` has a tree whose best score is not `best`.
pub open spec fn children_worse(v: EngineView, k: int, best: int) -> bool
    decreases k,
{
    if k <= 0 || !goes_on(v) || k > v.legal_list().len() {
        false
    } else {
        children_worse(v, k - 1, best) || tree_outcome(v.after_move(v.legal_list()[k - 1])).best != best
    }
}

/// What holds of every state of a run begun by `GameEngine::new`, the
/// terminal reason aside: well formed, one picked cell per buffer token, and a
/// daemon uploaded exactly when its tokens appear in the buffer.
pub open spec fn run_facts(v: EngineView) -> bool {
    &&& v.wf()
    &&& v.selected.len() == v.buffer.len()
    &&& forall|i: int| 0 <= i < v.sequences.len() ==> #[trigger] v.uploaded[i] == appears_in(v.buffer, v.sequences[i])
}

/// What holds of every state of a run begun by `GameEngine::new`.
pub open spec fn in_run(v: EngineView) -> bool {
    &&& run_facts(v)
    &&& v.terminal == v.derived_terminal()
}

/// The last `k` tokens of `buffer`.
pub open spec fn last_tokens(buffer: Seq<Seq<char>>, k: int) -> Seq<Seq<char>> {
    buffer.subrange(buffer.len() - k, buffer.len() as int)
}

/// The last `keep` tokens of `buffer`, or all of it where it is shorter.
pub open spec fn kept_end(buffer: Seq<Seq<char>>, keep: int) -> Seq<Seq<char>> {
    buffer.subrange(if buffer.len() >= keep { buffer.len() - keep } else { 0 }, buffer.len() as int)
}

/// Every daemon but its last token fits in the last `keep` tokens.
pub open spec fn keep_covers(sequences: Seq<Seq<Seq<char>>>, keep: int) -> bool {
    forall|i: int| 0 <= i < sequences.len() ==> #[trigger] sequences[i].len() <= keep + 1
}

/// The state in which `GameEngine::new` starts a run is a state of a run.
pub proof fn lemma_opening_in_run(v: EngineView)
    requires
        v.wf(),
        v.is_opening(),
    ensures
        in_run(v),
{
    assert forall|i: int| 0 <= i < v.sequences.len() implies #[trigger] v.uploaded[i] == appears_in(v.buffer, v.sequences[i]) by {
        crate::laws::lemma_nothing_appears_in_empty(v.sequences[i]);
        assert(v.buffer =~= Seq::<Seq<char>>::empty());
    }
}

/// A legal pick from a state of a run that is not over leads to a state of a run.
pub proof fn lemma_in_run_step(v: EngineView, cell: Cell)
    requires
        in_run(v),
        v.terminal is None,
        v.legal(cell),
    ensures
        in_run(v.after_move(cell)),
{
    let next = v.after_move(cell);
    lemma_after_move_wf(v, cell);
    assert(!v.selected.contains(cell));
    assert forall|i: int| 0 <= i < next.sequences.len() implies #[trigger] next.uploaded[i] == appears_in(next.buffer, next.sequences[i]) by {
        if appears_in(v.buffer, v.sequences[i]) {
            lemma_appears_after_push(v.buffer, v.sequences[i], v.matrix[cell.0 as int][cell.1 as int]);
        }
    }
    lemma_derived_ignores_terminal(next, None);
}

/// Buffers of one length with the same kept end agree in their last `k` tokens, for `k` up to `keep`.
proof fn lemma_kept_end_holds_last(b1: Seq<Seq<char>>, b2: Seq<Seq<char>>, keep: int, k: int)
    requires
        b1.len() == b2.len(),
        kept_end(b1, keep) == kept_end(b2, keep),
        0 <= k <= keep,
        k <= b1.len(),
    ensures
        last_tokens(b1, k) == last_tokens(b2, k),
{
    let e1 = kept_end(b1, keep);
    let e2 = kept_end(b2, keep);
    assert(last_tokens(b1, k) =~= e1.subrange(e1.len() - k, e1.len() as int));
    assert(last_tokens(b2, k) =~= e2.subrange(e2.len() - k, e2.len() as int));
}

/// A sequence missing from `b` appears in `b` with one more token exactly
/// where it makes up the last tokens.
proof fn lemma_appears_at_end(b: Seq<Seq<char>>, s: Seq<Seq<char>>, t: Seq<char>)
    requires
        !appears_in(b, s),
    ensures
        appears_in(b.push(t), s) == (s.len() > 0 && s.len() <= b.len() + 1 && last_tokens(b.push(t), s.len() as int) == s),
{
    let p = b.push(t);
    if appears_in(p, s) {
        let st = choose|st: int| window_matches(p, s, st);
        if st + s.len() <= b.len() {
            assert(b.subrange(st, st + s.len()) =~= p.subrange(st, st + s.len()));
            assert(window_matches(b, s, st));
        }
        assert(st + s.len() == p.len());
    }
    if s.len() > 0 && s.len() <= b.len() + 1 && last_tokens(p, s.len() as int) == s {
        assert(window_matches(p, s, p.len() - s.len()));
    }
}

/// Two buffers of one length with the same kept end, in neither of which `s`
/// appears, overlap `s` alike, where `s` but its last token fits in the kept end.
proof fn lemma_overlaps_agree(b1: Seq<Seq<char>>, b2: Seq<Seq<char>>, s: Seq<Seq<char>>, keep: int, k: int)
    requires
        b1.len() == b2.len(),
        kept_end(b1, keep) == kept_end(b2, keep),
        s.len() <= keep + 1,
        !appears_in(b1, s),
        !appears_in(b2, s),
    ensures
        overlaps(b1, s, k) == overlaps(b2, s, k),
{
    if 1 <= k <= s.len() && k <= b1.len() {
        if k < s.len() {
            lemma_kept_end_holds_last(b1, b2, keep, k);
        } else {
            assert(s.subrange(0, k) =~= s);
            if overlaps(b1, s, k) {
                assert(window_matches(b1, s, b1.len() - k));
            }
            if overlaps(b2, s, k) {
                assert(window_matches(b2, s, b2.len() - k));
            }
        }
    }
}

/// The longest overlaps of such buffers agree too.
proof fn lemma_longest_overlap_agrees(b1: Seq<Seq<char>>, b2: Seq<Seq<char>>, s: Seq<Seq<char>>, keep: int, k: nat)
    requires
        b1.len() == b2.len(),
        kept_end(b1, keep) == kept_end(b2, keep),
        s.len() <= keep + 1,
        !appears_in(b1, s),
        !appears_in(b2, s),
    ensures
        longest_overlap_upto(b1, s, k) == longest_overlap_upto(b2, s, k),
    decreases k,
{
    if k > 0 {
        lemma_overlaps_agree(b1, b2, s, keep, k as int);
        lemma_longest_overlap_agrees(b1, b2, s, keep, (k - 1) as nat);
    }
}

/// Two states of runs of one puzzle that the rest of a run cannot tell apart:
/// the same cells picked, as many picks, the same last pick, line and uploads,
/// and the same last `keep` buffer tokens.
pub open spec fn same_position(v: EngineView, w: EngineView, keep: int) -> bool {
    &&& v.matrix_size == w.matrix_size
    &&& v.buffer_size == w.buffer_size
    &&& v.matrix == w.matrix
    &&& v.sequences == w.sequences
    &&& v.values == w.values
    &&& forall|c: Cell| #![trigger v.selected.contains(c)] #![trigger w.selected.contains(c)]
        v.selected.contains(c) == w.selected.contains(c)
    &&& v.buffer.len() == w.buffer.len()
    &&& v.current == w.current
    &&& v.constraint == w.constraint
    &&& v.uploaded == w.uploaded
    &&& kept_end(v.buffer, keep) == kept_end(w.buffer, keep)
}

/// States in the same position accept the same picks.
proof fn lemma_same_legal(v: EngineView, w: EngineView, keep: int)
    requires
        same_position(v, w, keep),
    ensures
        forall|c: Cell| #[trigger] v.legal(c) == w.legal(c),
        v.has_legal() == w.has_legal(),
        v.legal_list() == w.legal_list(),
{
    assert forall|c: Cell| #[trigger] v.legal(c) == w.legal(c) by {
        assert(v.selected.contains(c) == w.selected.contains(c));
    }
    if v.has_legal() {
        let c = choose|c: Cell| v.legal(c);
        assert(w.legal(c));
    }
    if w.has_legal() {
        let c = choose|c: Cell| w.legal(c);
        assert(v.legal(c));
    }
    let pv = |c: Cell| !v.selected.contains(c);
    let pw = |c: Cell| !w.selected.contains(c);
    assert(pv =~= pw);
}

/// Each cell of the legal list may be picked.
pub proof fn lemma_legal_list_legal(v: EngineView, k: int)
    requires
        v.wf(),
        0 <= k < v.legal_list().len(),
    ensures
        v.legal(v.legal_list()[k]),
{
    let n = v.matrix_size as int;
    if v.buffer.len() == 0 {
        let pred = |c: Cell| !Seq::<Cell>::empty().contains(c);
        line_cells(n, 0, true).lemma_filter_pred(pred, k);
        let c = v.legal_list()[k];
        assert(line_cells(n, 0, true).filter(pred).contains(c));
        line_cells(n, 0, true).lemma_filter_contains_rev(pred, c);
    } else {
        let c = v.current->0;
        let pred = |x: Cell| !v.selected.contains(x);
        let along_row = v.constraint == ConstraintMode::Row;
        let line = if along_row { c.0 as int } else { c.1 as int };
        line_cells(n, line, along_row).lemma_filter_pred(pred, k);
        let d = v.legal_list()[k];
        assert(line_cells(n, line, along_row).filter(pred).contains(d));
        line_cells(n, line, along_row).lemma_filter_contains_rev(pred, d);
    }
}

/// States in the same position, with the facts of a run and a kept end that
/// holds every daemon but its last token, call for the same terminal reason.
proof fn lemma_same_derived_terminal(v: EngineView, w: EngineView, keep: int)
    requires
        run_facts(v),
        run_facts(w),
        same_position(v, w, keep),
        keep_covers(v.sequences, keep),
    ensures
        v.derived_terminal() == w.derived_terminal(),
{
    lemma_same_legal(v, w, keep);
    assert forall|i: int| 0 <= i < v.sequences.len() && !v.uploaded[i] implies #[trigger] v.can_upload(i) == w.can_upload(i) by {
        let s = v.sequences[i];
        assert(!appears_in(v.buffer, s));
        assert(!appears_in(w.buffer, s));
        let k: nat = if s.len() < v.buffer.len() { s.len() } else { v.buffer.len() };
        lemma_longest_overlap_agrees(v.buffer, w.buffer, s, keep, k);
    }
    if v.has_completable() {
        let i = choose|i: int| 0 <= i < v.sequences.len() && !v.uploaded[i] && v.can_upload(i);
        assert(w.can_upload(i));
    }
    if w.has_completable() {
        let i = choose|i: int| 0 <= i < w.sequences.len() && !w.uploaded[i] && w.can_upload(i);
        assert(v.can_upload(i));
    }
}

/// The last `k + 1` tokens after a push are the last `k` before it and the pushed one.
proof fn lemma_last_tokens_push(b: Seq<Seq<char>>, t: Seq<char>, k: int)
    requires
        0 <= k <= b.len(),
    ensures
        last_tokens(b.push(t), k + 1) == last_tokens(b, k).push(t),
{
    assert(last_tokens(b.push(t), k + 1) =~= last_tokens(b, k).push(t));
}

/// The same legal pick from states in the same position leads to states in the same position.
proof fn lemma_same_after_move(v: EngineView, w: EngineView, keep: int, cell: Cell)
    requires
        in_run(v),
        in_run(w),
        same_position(v, w, keep),
        keep_covers(v.sequences, keep),
        keep >= 0,
        v.terminal is None,
        v.legal(cell),
    ensures
        w.terminal is None,
        w.legal(cell),
        in_run(v.after_move(cell)),
        in_run(w.after_move(cell)),
        same_position(v.after_move(cell), w.after_move(cell), keep),
{
    lemma_same_legal(v, w, keep);
    lemma_same_derived_terminal(v, w, keep);
    lemma_in_run_step(v, cell);
    lemma_in_run_step(w, cell);
    let v2 = v.after_move(cell);
    let w2 = w.after_move(cell);
    let t = v.matrix[cell.0 as int][cell.1 as int];
    let len = v.buffer.len() as int;
    assert forall|c: Cell| #![trigger v2.selected.contains(c)] #![trigger w2.selected.contains(c)]
        v2.selected.contains(c) == w2.selected.contains(c) by {
        assert(v.selected.contains(c) == w.selected.contains(c));
        assert(v.selected.contains(cell) == w.selected.contains(cell));
        if !v.selected.contains(cell) {
            vstd::seq_lib::lemma_seq_contains_after_push(v.selected, cell, c);
            vstd::seq_lib::lemma_seq_contains_after_push(w.selected, cell, c);
        }
    }
    assert forall|i: int| 0 <= i < v2.uploaded.len() implies #[trigger] v2.uploaded[i] == w2.uploaded[i] by {
        if !v.uploaded[i] {
            let s = v.sequences[i];
            lemma_appears_at_end(v.buffer, s, t);
            lemma_appears_at_end(w.buffer, s, t);
            if s.len() > 0 && s.len() <= len + 1 {
                lemma_last_tokens_push(v.buffer, t, s.len() - 1);
                lemma_last_tokens_push(w.buffer, t, s.len() - 1);
                lemma_kept_end_holds_last(v.buffer, w.buffer, keep, s.len() - 1);
            }
        }
    }
    assert(v2.uploaded =~= w2.uploaded);
    if keep > 0 {
        let j = if keep <= len + 1 { keep } else { len + 1 };
        lemma_last_tokens_push(v.buffer, t, j - 1);
        lemma_last_tokens_push(w.buffer, t, j - 1);
        lemma_kept_end_holds_last(v.buffer, w.buffer, keep, j - 1);
        assert(kept_end(v2.buffer, keep) =~= last_tokens(v2.buffer, j));
        assert(kept_end(w2.buffer, keep) =~= last_tokens(w2.buffer, j));
    } else {
        assert(kept_end(v2.buffer, keep) =~= kept_end(w2.buffer, keep));
    }
}

/// States of runs of one puzzle in the same position have the same tree below
/// them, where the kept end holds every daemon but its last token.
pub proof fn lemma_same_tree(v: EngineView, w: EngineView, keep: int)
    requires
        in_run(v),
        in_run(w),
        same_position(v, w, keep),
        keep_covers(v.sequences, keep),
        keep >= 0,
    ensures
        tree_outcome(v) == tree_outcome(w),
        tree_size(v) == tree_size(w),
        tree_max_branch(v) == tree_max_branch(w),
        tree_has_trap(v) == tree_has_trap(w),
    decreases room(v), 1int, 0int,
{
    lemma_same_legal(v, w, keep);
    lemma_same_derived_terminal(v, w, keep);
    if goes_on(v) && v.legal_list().len() > 0 {
        lemma_same_children(v, w, keep, v.legal_list().len() as int);
    }
}

/// The folds of the first `k` children of such states agree.
proof fn lemma_same_children(v: EngineView, w: EngineView, keep: int, k: int)
    requires
        in_run(v),
        in_run(w),
        same_position(v, w, keep),
        keep_covers(v.sequences, keep),
        keep >= 0,
        goes_on(v),
        0 <= k <= v.legal_list().len(),
    ensures
        merge_children(v, k) == merge_children(w, k),
        children_size(v, k) == children_size(w, k),
        children_max_branch(v, k) == children_max_branch(w, k),
        children_trap(v, k) == children_trap(w, k),
        forall|best: int| #[trigger] children_worse(v, k, best) == children_worse(w, k, best),
    decreases room(v), 0int, k,
{
    lemma_same_legal(v, w, keep);
    lemma_same_derived_terminal(v, w, keep);
    if k > 0 {
        lemma_same_children(v, w, keep, k - 1);
        let cell = v.legal_list()[k - 1];
        lemma_legal_list_legal(v, k - 1);
        lemma_same_after_move(v, w, keep, cell);
        lemma_same_tree(v.after_move(cell), w.after_move(cell), keep);
        assert forall|best: int| #[trigger] children_worse(v, k, best) == children_worse(w, k, best) by {
            assert(children_worse(v, k - 1, best) == children_worse(w, k - 1, best));
        }
    }
}

/// Every legal cell is in the legal list.
proof fn lemma_legal_in_list(v: EngineView, c: Cell)
    requires
        v.wf(),
        v.legal(c),
    ensures
        v.legal_list().contains(c),
{
    let n = v.matrix_size as int;
    if v.buffer.len() == 0 {
        let pred = |x: Cell| !Seq::<Cell>::empty().contains(x);
        let cells = line_cells(n, 0, true);
        assert(cells[c.1 as int] == c);
        cells.lemma_filter_contains(pred, c.1 as int);
    } else {
        let cur = v.current->0;
        let pred = |x: Cell| !v.selected.contains(x);
        if v.constraint == ConstraintMode::Row {
            let cells = line_cells(n, cur.0 as int, true);
            assert(cells[c.1 as int] == c);
            cells.lemma_filter_contains(pred, c.1 as int);
        } else {
            let cells = line_cells(n, cur.1 as int, false);
            assert(cells[c.0 as int] == c);
            cells.lemma_filter_contains(pred, c.0 as int);
        }
    }
}

/// The tree below `v` after its `j`-th legal pick.
pub open spec fn child_tree(v: EngineView, j: int) -> TreeOutcome {
    tree_outcome(v.after_move(v.legal_list()[j]))
}

/// The fold of the children is at least as good as the state itself, and
/// where it is no better, its best comes after no more picks than the state's.
proof fn lemma_children_cover_state(v: EngineView, k: int)
    requires
        goes_on(v),
        0 <= k <= v.legal_list().len(),
    ensures
        merge_children(v, k).best >= v.score(),
        merge_children(v, k).best == v.score() ==> merge_children(v, k).best_moves <= v.buffer.len(),
    decreases k,
{
    if k > 0 {
        lemma_children_cover_state(v, k - 1);
    }
}

/// The fold of the first `k` children is at least as good as each of them,
/// reaches a best it shares with one no later, and uploads every daemon no
/// later than any of them does.
proof fn lemma_children_cover_child(v: EngineView, k: int, j: int)
    requires
        goes_on(v),
        0 <= j < k <= v.legal_list().len(),
    ensures
        merge_children(v, k).best >= child_tree(v, j).best,
        child_tree(v, j).best == merge_children(v, k).best
            ==> merge_children(v, k).best_moves <= child_tree(v, j).best_moves,
        child_tree(v, j).all_moves matches Some(a)
            ==> (merge_children(v, k).all_moves matches Some(b) && b <= a),
    decreases k,
{
    if j < k - 1 {
        lemma_children_cover_child(v, k - 1, j);
    }
}

/// The best of the fold of the first `k` children is the state's own, after
/// its own picks (`None`), or that of one child, after that child's fewest picks.
proof fn lemma_children_best_source(v: EngineView, k: int) -> (j: Option<int>)
    requires
        goes_on(v),
        0 <= k <= v.legal_list().len(),
    ensures
        j is None ==> merge_children(v, k).best == v.score() && merge_children(v, k).best_moves == v.buffer.len(),
        j matches Some(i) ==> 0 <= i < k && merge_children(v, k).best == child_tree(v, i).best
            && merge_children(v, k).best_moves == child_tree(v, i).best_moves,
    decreases k,
{
    if k == 0 {
        None
    } else {
        let before = lemma_children_best_source(v, k - 1);
        let acc = merge_children(v, k - 1);
        let child = child_tree(v, k - 1);
        if child.best > acc.best || (child.best == acc.best && child.best_moves < acc.best_moves) {
            Some(k - 1)
        } else {
            before
        }
    }
}

/// Where the fold of the first `k` children has a fewest number of picks that
/// upload every daemon, one child has the same.
proof fn lemma_children_all_source(v: EngineView, k: int) -> (j: int)
    requires
        goes_on(v),
        0 <= k <= v.legal_list().len(),
        merge_children(v, k).all_moves is Some,
    ensures
        0 <= j < k,
        child_tree(v, j).all_moves == merge_children(v, k).all_moves,
    decreases k,
{
    let acc = merge_children(v, k - 1);
    let child = child_tree(v, k - 1);
    if child.all_moves is Some && (acc.all_moves is None || child.all_moves->0 <= acc.all_moves->0) {
        k - 1
    } else {
        lemma_children_all_source(v, k - 1)
    }
}

/// No run from a state of a run scores more than the best of the tree below
/// it; a run that reaches that best takes at least the tree's fewest picks to
/// it; and a run that uploads every daemon takes at least the tree's fewest
/// picks to do so.
pub proof fn law_tree_bounds_every_run(v: EngineView, path: Seq<Cell>)
    requires
        in_run(v),
        play(v, path) is Some,
    ensures
        play(v, path)->0.score() <= tree_outcome(v).best,
        play(v, path)->0.score() == tree_outcome(v).best
            ==> play(v, path)->0.buffer.len() >= tree_outcome(v).best_moves,
        play(v, path)->0.all_uploaded()
            ==> (tree_outcome(v).all_moves matches Some(k) && k <= play(v, path)->0.buffer.len()),
    decreases path.len(),
{
    if path.len() == 0 {
        if goes_on(v) && v.legal_list().len() > 0 {
            lemma_children_cover_state(v, v.legal_list().len() as int);
        }
    } else {
        lemma_play_first(v, path);
        let c = path[0];
        lemma_in_run_step(v, c);
        law_tree_bounds_every_run(v.after_move(c), path.drop_first());
        lemma_legal_in_list(v, c);
        let j = choose|j: int| 0 <= j < v.legal_list().len() && v.legal_list()[j] == c;
        lemma_children_cover_child(v, v.legal_list().len() as int, j);
    }
}

/// Some run from a state of a run reaches the best score of the tree below it
/// after exactly the tree's fewest picks to it.
pub proof fn law_tree_best_is_reached(v: EngineView) -> (path: Seq<Cell>)
    requires
        in_run(v),
    ensures
        play(v, path) is Some,
        play(v, path)->0.score() == tree_outcome(v).best,
        play(v, path)->0.buffer.len() == tree_outcome(v).best_moves,
    decreases room(v),
{
    if !goes_on(v) || v.legal_list().len() == 0 {
        Seq::empty()
    } else {
        match lemma_children_best_source(v, v.legal_list().len() as int) {
            None => Seq::empty(),
            Some(j) => {
                let c = v.legal_list()[j];
                lemma_legal_list_legal(v, j);
                lemma_in_run_step(v, c);
                let rest = law_tree_best_is_reached(v.after_move(c));
                let path = seq![c] + rest;
                assert(path[0] == c);
                assert(path.drop_first() =~= rest);
                lemma_play_first(v, path);
                path
            },
        }
    }
}

/// Where the tree below a state of a run has a fewest number of picks that
/// upload every daemon, some run from the state uploads every daemon after
/// exactly that many.
pub proof fn law_tree_all_is_reached(v: EngineView) -> (path: Seq<Cell>)
    requires
        in_run(v),
        tree_outcome(v).all_moves is Some,
    ensures
        play(v, path) is Some,
        play(v, path)->0.all_uploaded(),
        play(v, path)->0.buffer.len() == tree_outcome(v).all_moves->0,
    decreases room(v),
{
    if !goes_on(v) || v.legal_list().len() == 0 {
        Seq::empty()
    } else {
        let j = lemma_children_all_source(v, v.legal_list().len() as int);
        let c = v.legal_list()[j];
        lemma_legal_list_legal(v, j);
        lemma_in_run_step(v, c);
        let rest = law_tree_all_is_reached(v.after_move(c));
        let path = seq![c] + rest;
        assert(path[0] == c);
        assert(path.drop_first() =~= rest);
        lemma_play_first(v, path);
        path
    }
}


/// A state where the run goes on has a pick whose tree's best score is not
/// the best of the state's own tree.
pub open spec fn has_losing_pick(w: EngineView) -> bool {
    &&& goes_on(w)
    &&& exists|j: int| 0 <= j < w.legal_list().len() && #[trigger] child_tree(w, j).best != tree_outcome(w).best
}

/// One of the first `k` picks whose tree's best is not `best`.
proof fn lemma_children_worse_source(v: EngineView, k: int, best: int) -> (j: int)
    requires
        goes_on(v),
        0 <= k <= v.legal_list().len(),
        children_worse(v, k, best),
    ensures
        0 <= j < k,
        child_tree(v, j).best != best,
    decreases k,
{
    if children_worse(v, k - 1, best) {
        lemma_children_worse_source(v, k - 1, best)
    } else {
        k - 1
    }
}

/// One of the first `k` picks whose tree has a trap.
proof fn lemma_children_trap_source(v: EngineView, k: int) -> (j: int)
    requires
        goes_on(v),
        0 <= k <= v.legal_list().len(),
        children_trap(v, k),
    ensures
        0 <= j < k,
        tree_has_trap(v.after_move(v.legal_list()[j])),
    decreases k,
{
    if children_trap(v, k - 1) {
        lemma_children_trap_source(v, k - 1)
    } else {
        k - 1
    }
}

/// A pick among the first `k` whose tree's best is not `best` is seen by the fold.
proof fn lemma_child_worse_counts(v: EngineView, k: int, j: int, best: int)
    requires
        goes_on(v),
        0 <= j < k <= v.legal_list().len(),
        child_tree(v, j).best != best,
    ensures
        children_worse(v, k, best),
    decreases k,
{
    if j < k - 1 {
        lemma_child_worse_counts(v, k - 1, j, best);
    }
}

/// A pick among the first `k` whose tree has a trap is seen by the fold.
proof fn lemma_child_trap_counts(v: EngineView, k: int, j: int)
    requires
        goes_on(v),
        0 <= j < k <= v.legal_list().len(),
        tree_has_trap(v.after_move(v.legal_list()[j])),
    ensures
        children_trap(v, k),
    decreases k,
{
    if j < k - 1 {
        lemma_child_trap_counts(v, k - 1, j);
    }
}

/// The tree below a state of a run has a trap exactly where some run from the
/// state reaches a state with a losing pick; this gives such a run.
pub proof fn law_trap_is_a_losing_pick(v: EngineView) -> (path: Seq<Cell>)
    requires
        in_run(v),
        tree_has_trap(v),
    ensures
        play(v, path) is Some,
        has_losing_pick(play(v, path)->0),
    decreases room(v),
{
    let len = v.legal_list().len() as int;
    let best = tree_outcome(v).best;
    if children_worse(v, len, best) {
        let j = lemma_children_worse_source(v, len, best);
        assert(child_tree(v, j).best != tree_outcome(v).best);
        Seq::empty()
    } else {
        let j = lemma_children_trap_source(v, len);
        let c = v.legal_list()[j];
        lemma_legal_list_legal(v, j);
        lemma_in_run_step(v, c);
        let rest = law_trap_is_a_losing_pick(v.after_move(c));
        let path = seq![c] + rest;
        assert(path[0] == c);
        assert(path.drop_first() =~= rest);
        lemma_play_first(v, path);
        path
    }
}

/// A run from a state of a run that reaches a state with a losing pick shows
/// a trap in the tree below the state.
pub proof fn law_losing_pick_is_a_trap(v: EngineView, path: Seq<Cell>)
    requires
        in_run(v),
        play(v, path) is Some,
        has_losing_pick(play(v, path)->0),
    ensures
        tree_has_trap(v),
    decreases path.len(),
{
    if path.len() == 0 {
        let j = choose|j: int| 0 <= j < v.legal_list().len() && #[trigger] child_tree(v, j).best != tree_outcome(v).best;
        lemma_child_worse_counts(v, v.legal_list().len() as int, j, tree_outcome(v).best);
    } else {
        lemma_play_first(v, path);
        let c = path[0];
        lemma_in_run_step(v, c);
        law_losing_pick_is_a_trap(v.after_move(c), path.drop_first());
        lemma_legal_in_list(v, c);
        let j = choose|j: int| 0 <= j < v.legal_list().len() && v.legal_list()[j] == c;
        lemma_child_trap_counts(v, v.legal_list().len() as int, j);
    }
}

/// The tree below any child among the first `k` branches no more than the fold.
proof fn lemma_child_branch_bounded(v: EngineView, k: int, j: int)
    requires
        goes_on(v),
        0 <= j < k <= v.legal_list().len(),
    ensures
        tree_max_branch(v.after_move(v.legal_list()[j])) <= children_max_branch(v, k),
    decreases k,
{
    if j < k - 1 {
        lemma_child_branch_bounded(v, k - 1, j);
    }
}

/// The widest branching of the first `k` children is that of one of them.
proof fn lemma_children_branch_source(v: EngineView, k: int) -> (j: int)
    requires
        goes_on(v),
        1 <= k <= v.legal_list().len(),
    ensures
        0 <= j < k,
        children_max_branch(v, k) == tree_max_branch(v.after_move(v.legal_list()[j])),
    decreases k,
{
    if k > 1 && children_max_branch(v, k - 1) >= tree_max_branch(v.after_move(v.legal_list()[k - 1])) {
        lemma_children_branch_source(v, k - 1)
    } else {
        assert(children_max_branch(v, 0) == 0);
        k - 1
    }
}

/// No state that a run from a state of a run reaches, with the run going on,
/// has more legal picks than the widest branching of the tree below it.
pub proof fn law_branching_bounds_every_state(v: EngineView, path: Seq<Cell>)
    requires
        in_run(v),
        play(v, path) is Some,
        goes_on(play(v, path)->0),
    ensures
        play(v, path)->0.legal_list().len() <= tree_max_branch(v),
    decreases path.len(),
{
    if path.len() > 0 {
        lemma_play_first(v, path);
        let c = path[0];
        lemma_in_run_step(v, c);
        law_branching_bounds_every_state(v.after_move(c), path.drop_first());
        lemma_legal_in_list(v, c);
        let j = choose|j: int| 0 <= j < v.legal_list().len() && v.legal_list()[j] == c;
        lemma_child_branch_bounded(v, v.legal_list().len() as int, j);
    }
}

/// Where the tree below a state of a run branches at all, some run from the
/// state reaches a state with exactly its widest branching of legal picks.
pub proof fn law_widest_branching_is_reached(v: EngineView) -> (path: Seq<Cell>)
    requires
        in_run(v),
        tree_max_branch(v) > 0,
    ensures
        play(v, path) is Some,
        goes_on(play(v, path)->0),
        play(v, path)->0.legal_list().len() == tree_max_branch(v),
    decreases room(v),
{
    let len = v.legal_list().len() as int;
    if children_max_branch(v, len) <= len {
        Seq::empty()
    } else {
        let j = lemma_children_branch_source(v, len);
        let c = v.legal_list()[j];
        lemma_legal_list_legal(v, j);
        lemma_in_run_step(v, c);
        let rest = law_widest_branching_is_reached(v.after_move(c));
        let path = seq![c] + rest;
        assert(path[0] == c);
        assert(path.drop_first() =~= rest);
        lemma_play_first(v, path);
        path
    }
}


/// The sum of the final scores of all runs from `v`.
pub open spec fn runs_score_total(v: EngineView) -> int
    decreases room(v), 1int, 0int,
{
    if !goes_on(v) || v.legal_list().len() == 0 {
        v.score()
    } else {
        children_runs_score_total(v, v.legal_list().len() as int)
    }
}

/// The sum of the final scores of the runs below the first `k` legal picks of `v`.
pub open spec fn children_runs_score_total(v: EngineView, k: int) -> int
    decreases room(v), 0int, k,
{
    if k <= 0 || !goes_on(v) || k > v.legal_list().len() {
        0
    } else {
        children_runs_score_total(v, k - 1) + runs_score_total(v.after_move(v.legal_list()[k - 1]))
    }
}

/// The score total of the tree below `v` is the sum of the final scores of
/// all runs from `v`.
pub proof fn law_score_total_sums_runs(v: EngineView)
    ensures
        tree_outcome(v).score_total == runs_score_total(v),
    decreases room(v), 1int, 0int,
{
    if goes_on(v) && v.legal_list().len() > 0 {
        lemma_children_score_total(v, v.legal_list().len() as int);
    }
}

/// The fold of the first `k` children sums the final scores of their runs.
proof fn lemma_children_score_total(v: EngineView, k: int)
    requires
        goes_on(v),
        0 <= k <= v.legal_list().len(),
    ensures
        merge_children(v, k).score_total == children_runs_score_total(v, k),
    decreases room(v), 0int, k,
{
    if k > 0 {
        lemma_children_score_total(v, k - 1);
        law_score_total_sums_runs(v.after_move(v.legal_list()[k - 1]));
    }
}

} // verus!
