//! The exhaustive solver: a depth-first search over every accepted series of
//! picks, with a memo of search states, node and path caps, and the counts
//! that the difficulty rating is made from.

use vstd::prelude::*;
use crate::game_tree::{TreeOutcome, full_run_count, run_count, runs_ending_on, runs_score_total, children_max_branch, children_size, children_trap, children_worse, max_nat, tree_has_trap, tree_max_branch, lemma_children_size_grows, tree_size, in_run, keep_covers, kept_end, goes_on, lemma_in_run_step, lemma_same_tree, merge_children, run_facts, same_position, tree_outcome};
use crate::engine::{BreachConfig, Cell, ConstraintMode, EngineView, GameEngine, GameError, Token, config_problem, copy_grid, copy_items, copy_tokens, grid_views, opening_view, token_views, uploaded_total};

verus! {

/// Limits of a search: how many states to expand, and where to stop counting paths.
#[derive(Clone, Copy, Debug)]
pub struct SolverOptions {
    pub node_limit: usize,
    pub solution_cap: usize,
}

impl Default for SolverOptions {
    /// 200 000 states and 1 000 paths.
    fn default() -> (options: Self)
        ensures
            options.node_limit == 200_000,
            options.solution_cap == 1_000,
    {
        SolverOptions { node_limit: 200_000, solution_cap: 1_000 }
    }
}

/// How hard a puzzle is rated, or `Uncertain` where the search was cut short.
#[derive(Clone, Copy, Debug, PartialEq, Eq, Structural)]
pub enum DifficultyTier {
    Trivial,
    Easy,
    Medium,
    Hard,
    Extreme,
    Uncertain,
}

/// A count that stops at a cap and remembers that it did.
#[derive(Clone, Copy, Debug)]
pub struct CappedCount {
    pub value: usize,
    pub capped: bool,
}

/// The cap that a count uses: `cap`, but at least 1.
pub open spec fn effective_cap(cap: int) -> int {
    if cap < 1 { 1 } else { cap }
}

impl CappedCount {
    /// A count of one.
    pub fn one() -> (count: Self)
        ensures
            count.value == 1,
            !count.capped,
    {
        CappedCount { value: 1, capped: false }
    }

    /// A count of none.
    pub fn zero() -> (count: Self)
        ensures
            count.value == 0,
            !count.capped,
    {
        CappedCount { value: 0, capped: false }
    }

    /// Adds `other`, stopping at `cap` (at least 1); the result is capped where
    /// either count was or where the sum passed the cap.
    pub fn add(&mut self, other: Self, cap: usize)
        ensures
            final(self).value == (if old(self).value + other.value <= effective_cap(cap as int) {
                old(self).value + other.value
            } else {
                effective_cap(cap as int)
            }),
            final(self).capped == (old(self).capped || other.capped
                || old(self).value + other.value > effective_cap(cap as int)),
    {
        let cap = if cap < 1 { 1 } else { cap };
        self.capped = self.capped || other.capped;
        match self.value.checked_add(other.value) {
            Some(sum) => {
                if sum <= cap {
                    self.value = sum;
                } else {
                    self.value = cap;
                    self.capped = true;
                }
            },
            None => {
                self.value = cap;
                self.capped = true;
            },
        }
    }
}

/// How much of `incoming` still fits under the cap after `current`.
pub fn capped_addend(current: CappedCount, incoming: CappedCount, cap: usize) -> (accepted: usize)
    ensures
        accepted == (if current.value >= effective_cap(cap as int) {
            0
        } else if incoming.value <= effective_cap(cap as int) - current.value {
            incoming.value as int
        } else {
            effective_cap(cap as int) - current.value
        }),
{
    let cap = if cap < 1 { 1 } else { cap };
    if current.value >= cap {
        0
    } else {
        let room = cap - current.value;
        if incoming.value <= room { incoming.value } else { room }
    }
}

/// The smaller of two optional counts, ignoring a missing one.
pub open spec fn spec_min_option(left: Option<usize>, right: Option<usize>) -> Option<usize> {
    match (left, right) {
        (Some(a), Some(b)) => Some(if a <= b { a } else { b }),
        (Some(a), None) => Some(a),
        (None, Some(b)) => Some(b),
        (None, None) => None,
    }
}

/// The smaller of two optional counts, ignoring a missing one.
pub fn min_option(left: Option<usize>, right: Option<usize>) -> (r: Option<usize>)
    ensures
        r == spec_min_option(left, right),
{
    match (left, right) {
        (Some(a), Some(b)) => Some(if a <= b { a } else { b }),
        (Some(a), None) => Some(a),
        (None, Some(b)) => Some(b),
        (None, None) => None,
    }
}

/// What identifies a search state for the memo: the picked cells as bits of a
/// row-major index (those below 128), the last pick's index, the line rule,
/// the uploaded daemons as bits (the first 64), and the buffer's last tokens.
#[derive(Debug)]
pub struct SearchKey {
    pub selected_mask: u128,
    pub current_index: Option<usize>,
    pub current_constraint: ConstraintMode,
    pub uploaded_mask: u64,
    pub suffix: Vec<Token>,
}

/// The row-major index of `cell` in an `n` by `n` matrix.
pub open spec fn cell_index(cell: Cell, n: int) -> int {
    cell.0 * n + cell.1
}

/// The bits of the row-major indices below 128 of `cells`.
pub open spec fn cells_mask(cells: Seq<Cell>, n: int) -> u128
    decreases cells.len(),
{
    if cells.len() == 0 {
        0u128
    } else {
        let prev = cells_mask(cells.drop_last(), n);
        let bit = cell_index(cells.last(), n);
        if bit < 128 { prev | (1u128 << (bit as u32)) } else { prev }
    }
}

/// The bits of the set flags among the first 64.
pub open spec fn flags_mask(flags: Seq<bool>) -> u64
    decreases flags.len(),
{
    if flags.len() == 0 {
        0u64
    } else {
        let prev = flags_mask(flags.drop_last());
        let idx = flags.len() - 1;
        if flags.last() && idx < 64 { prev | (1u64 << (idx as u32)) } else { prev }
    }
}

/// The key fields are those of the state `v`.
pub open spec fn key_describes(key: SearchKey, v: EngineView, max_suffix_len: int) -> bool {
    &&& key.selected_mask == cells_mask(v.selected, v.matrix_size as int)
    &&& key.current_index == (match v.current {
        Some(c) => Some(cell_index(c, v.matrix_size as int) as usize),
        None => None,
    })
    &&& key.current_constraint == v.constraint
    &&& key.uploaded_mask == flags_mask(v.uploaded)
    &&& token_views(key.suffix@) == kept_end(v.buffer, max_suffix_len)
}

/// Two keys name the same search state.
pub open spec fn same_key_spec(a: SearchKey, b: SearchKey) -> bool {
    &&& a.selected_mask == b.selected_mask
    &&& a.current_index == b.current_index
    &&& a.current_constraint == b.current_constraint
    &&& a.uploaded_mask == b.uploaded_mask
    &&& token_views(a.suffix@) == token_views(b.suffix@)
}

/// Whether two keys name the same search state.
pub fn same_key(a: &SearchKey, b: &SearchKey) -> (r: bool)
    ensures
        r == same_key_spec(*a, *b),
{
    if a.selected_mask != b.selected_mask || a.uploaded_mask != b.uploaded_mask {
        return false;
    }
    let same_index = match (a.current_index, b.current_index) {
        (Some(x), Some(y)) => x == y,
        (None, None) => true,
        _ => false,
    };
    if !same_index {
        return false;
    }
    let same_line = match (a.current_constraint, b.current_constraint) {
        (ConstraintMode::Row, ConstraintMode::Row) => true,
        (ConstraintMode::Column, ConstraintMode::Column) => true,
        _ => false,
    };
    if !same_line {
        return false;
    }
    if a.suffix.len() != b.suffix.len() {
        assert(token_views(a.suffix@).len() != token_views(b.suffix@).len());
        return false;
    }
    let r = crate::engine::run_matches(a.suffix.as_slice(), b.suffix.as_slice(), 0, a.suffix.len());
    assert(token_views(a.suffix@).subrange(0, a.suffix@.len() as int) =~= token_views(a.suffix@));
    assert(token_views(b.suffix@).subrange(0, b.suffix@.len() as int) =~= token_views(b.suffix@));
    r
}

/// Bit `j` of `x` with bit `b` set is set exactly where it was set or `j` is `b`.
proof fn lemma_bit_of_set_u128(x: u128, b: u32, j: u32)
    by (bit_vector)
    requires
        b < 128,
        j < 128,
    ensures
        ((x | (1u128 << b)) >> j) & 1u128 == 1u128 <==> (((x >> j) & 1u128 == 1u128) || b == j),
{
}

/// No bit of zero is set.
proof fn lemma_no_bit_of_zero_u128(j: u32)
    by (bit_vector)
    requires
        j < 128,
    ensures
        (0u128 >> j) & 1u128 != 1u128,
{
}

/// Bit `j` of `x` with bit `b` set is set exactly where it was set or `j` is `b`.
proof fn lemma_bit_of_set_u64(x: u64, b: u32, j: u32)
    by (bit_vector)
    requires
        b < 64,
        j < 64,
    ensures
        ((x | (1u64 << b)) >> j) & 1u64 == 1u64 <==> (((x >> j) & 1u64 == 1u64) || b == j),
{
}

/// No bit of zero is set.
proof fn lemma_no_bit_of_zero_u64(j: u32)
    by (bit_vector)
    requires
        j < 64,
    ensures
        (0u64 >> j) & 1u64 != 1u64,
{
}

/// Bit `j` of the picked-cell bits is set exactly where a cell of index `j` is among `cells`.
proof fn lemma_cells_mask_bit(cells: Seq<Cell>, n: int, j: u32)
    requires
        j < 128,
        n >= 0,
    ensures
        ((cells_mask(cells, n) >> j) & 1u128 == 1u128)
            <==> exists|c: Cell| #[trigger] cells.contains(c) && cell_index(c, n) == j,
    decreases cells.len(),
{
    if cells.len() == 0 {
        lemma_no_bit_of_zero_u128(j);
    } else {
        let prev = cells.drop_last();
        let last = cells.last();
        lemma_cells_mask_bit(prev, n, j);
        assert(cells =~= prev.push(last));
        assert forall|c: Cell| #[trigger] cells.contains(c) <==> prev.contains(c) || c == last by {
            vstd::seq_lib::lemma_seq_contains_after_push(prev, last, c);
        }
        let bit = cell_index(last, n);
        if bit < 128 {
            lemma_bit_of_set_u128(cells_mask(prev, n), bit as u32, j);
        }
        if ((cells_mask(cells, n) >> j) & 1u128 == 1u128) {
            if ((cells_mask(prev, n) >> j) & 1u128 == 1u128) {
                let c = choose|c: Cell| #[trigger] prev.contains(c) && cell_index(c, n) == j;
                assert(cells.contains(c));
            } else {
                assert(cells.contains(last));
            }
        }
        if exists|c: Cell| #[trigger] cells.contains(c) && cell_index(c, n) == j {
            let c = choose|c: Cell| #[trigger] cells.contains(c) && cell_index(c, n) == j;
            if c != last {
                assert(prev.contains(c));
            }
        }
    }
}

/// Bit `j` of the flag bits is set exactly where flag `j` is.
proof fn lemma_flags_mask_bit(flags: Seq<bool>, j: u32)
    requires
        j < 64,
    ensures
        ((flags_mask(flags) >> j) & 1u64 == 1u64) <==> (j < flags.len() && flags[j as int]),
    decreases flags.len(),
{
    if flags.len() == 0 {
        lemma_no_bit_of_zero_u64(j);
    } else {
        let prev = flags.drop_last();
        lemma_flags_mask_bit(prev, j);
        let idx = flags.len() - 1;
        if flags.last() && idx < 64 {
            lemma_bit_of_set_u64(flags_mask(prev), idx as u32, j);
        }
        if j < prev.len() {
            assert(prev[j as int] == flags[j as int]);
        }
    }
}

/// A cell inside an `n` by `n` matrix has an index below `n * n`.
proof fn lemma_cell_index_below(c: Cell, n: int)
    requires
        c.0 < n,
        c.1 < n,
    ensures
        0 <= cell_index(c, n) < n * n,
{
    assert(c.0 * n + c.1 < n * n) by (nonlinear_arith)
        requires
            0 <= c.0 < n,
            0 <= c.1 < n,
    ;
    assert(0 <= c.0 * n) by (nonlinear_arith)
        requires
            0 <= c.0,
            0 <= n,
    ;
}

/// Cells of a row length `n` with one index are one cell.
proof fn lemma_cell_index_injective(c: Cell, d: Cell, n: int)
    requires
        c.1 < n,
        d.1 < n,
        cell_index(c, n) == cell_index(d, n),
    ensures
        c == d,
{
    if c.0 < d.0 {
        assert(c.0 * n + c.1 < d.0 * n + d.1) by (nonlinear_arith)
            requires
                c.0 + 1 <= d.0,
                0 <= c.1 < n,
                0 <= d.1,
        ;
    } else if d.0 < c.0 {
        assert(d.0 * n + d.1 < c.0 * n + c.1) by (nonlinear_arith)
            requires
                d.0 + 1 <= c.0,
                0 <= d.1 < n,
                0 <= c.1,
        ;
    }
}

/// States of runs of one puzzle whose memo keys name the same search state are
/// in the same position, where every cell index and every daemon has a bit in the key.
pub proof fn lemma_same_key_same_position(v: EngineView, w: EngineView, kv: SearchKey, kw: SearchKey, keep: int)
    requires
        run_facts(v),
        run_facts(w),
        v.matrix_size == w.matrix_size,
        v.buffer_size == w.buffer_size,
        v.matrix == w.matrix,
        v.sequences == w.sequences,
        v.values == w.values,
        v.matrix_size * v.matrix_size <= 128,
        v.sequences.len() <= 64,
        key_describes(kv, v, keep),
        key_describes(kw, w, keep),
        same_key_spec(kv, kw),
    ensures
        same_position(v, w, keep),
{
    let n = v.matrix_size as int;
    assert forall|a: EngineView, b: EngineView, c: Cell|
        #![trigger a.selected.contains(c), b.selected.contains(c)]
        (a == v && b == w || a == w && b == v) && a.selected.contains(c) implies b.selected.contains(c) by {
        let i = choose|i: int| 0 <= i < a.selected.len() && a.selected[i] == c;
        assert(c.0 < n && c.1 < n);
        lemma_cell_index_below(c, n);
        let j = cell_index(c, n);
        lemma_cells_mask_bit(a.selected, n, j as u32);
        lemma_cells_mask_bit(b.selected, n, j as u32);
        assert(a.selected.contains(c) && cell_index(c, n) == j);
        let d = choose|d: Cell| #[trigger] b.selected.contains(d) && cell_index(d, n) == j;
        let k = choose|k: int| 0 <= k < b.selected.len() && b.selected[k] == d;
        assert(d.1 < n);
        lemma_cell_index_injective(c, d, n);
    }
    assert forall|c: Cell| #![trigger v.selected.contains(c)] #![trigger w.selected.contains(c)]
        v.selected.contains(c) == w.selected.contains(c) by {
        if v.selected.contains(c) {
            assert(w.selected.contains(c));
        }
        if w.selected.contains(c) {
            assert(v.selected.contains(c));
        }
    }
    v.selected.unique_seq_to_set();
    w.selected.unique_seq_to_set();
    assert(v.selected.to_set() =~= w.selected.to_set());
    match v.current {
        Some(cv) => {
            let cw = w.current->0;
            lemma_cell_index_below(cv, n);
            lemma_cell_index_below(cw, n);
            lemma_cell_index_injective(cv, cw, n);
        },
        None => {},
    }
    assert forall|i: int| 0 <= i < v.uploaded.len() implies #[trigger] v.uploaded[i] == w.uploaded[i] by {
        lemma_flags_mask_bit(v.uploaded, i as u32);
        lemma_flags_mask_bit(w.uploaded, i as u32);
    }
    assert(v.uploaded =~= w.uploaded);
}

/// The memo key of the state of `engine`, keeping the last `max_suffix_len` buffer tokens.
pub fn search_key(engine: &GameEngine, max_suffix_len: usize) -> (key: SearchKey)
    requires
        engine@.wf(),
        engine@.matrix_size * engine@.matrix_size <= usize::MAX,
    ensures
        key_describes(key, engine@, max_suffix_len as int),
{
    let n = engine.config.matrix_size;
    let ghost v = engine@;
    let mut selected_mask: u128 = 0;
    let mut i: usize = 0;
    while i < engine.state.selected_cells.len()
        invariant
            i <= v.selected.len(),
            v == engine@,
            v.wf(),
            n == v.matrix_size,
            n * n <= usize::MAX,
            selected_mask == cells_mask(v.selected.take(i as int), n as int),
        decreases v.selected.len() - i,
    {
        let (row, col) = engine.state.selected_cells[i];
        assert(v.selected[i as int].0 < n && v.selected[i as int].1 < n);
        assert(row * n + col < n * n) by (nonlinear_arith)
            requires
                row < n,
                col < n,
        ;
        let bit = row * n + col;
        assert(v.selected.take(i + 1).drop_last() =~= v.selected.take(i as int));
        if bit < 128 {
            selected_mask = selected_mask | (1u128 << (bit as u32));
        }
        i += 1;
    }
    assert(v.selected.take(i as int) =~= v.selected);
    let current_index = match engine.state.current_index {
        Some((row, col)) => {
            assert(row * n + col < n * n) by (nonlinear_arith)
                requires
                    row < n,
                    col < n,
            ;
            Some(row * n + col)
        },
        None => None,
    };
    let mut uploaded_mask: u64 = 0;
    let mut k: usize = 0;
    while k < engine.state.uploaded_results.len()
        invariant
            k <= v.uploaded.len(),
            v == engine@,
            uploaded_mask == flags_mask(v.uploaded.take(k as int)),
        decreases v.uploaded.len() - k,
    {
        assert(v.uploaded.take(k + 1).drop_last() =~= v.uploaded.take(k as int));
        if engine.state.uploaded_results[k] && k < 64 {
            uploaded_mask = uploaded_mask | (1u64 << (k as u32));
        }
        k += 1;
    }
    assert(v.uploaded.take(k as int) =~= v.uploaded);
    let len = engine.state.buffer_tokens.len();
    let start = if len >= max_suffix_len { len - max_suffix_len } else { 0 };
    let mut suffix: Vec<Token> = Vec::new();
    let mut j: usize = start;
    while j < len
        invariant
            start <= j <= len,
            len == v.buffer.len(),
            v == engine@,
            token_views(suffix@) == v.buffer.subrange(start as int, j as int),
        decreases len - j,
    {
        let token = engine.state.buffer_tokens[j].clone();
        let ghost before = token_views(suffix@);
        suffix.push(token);
        assert(token_views(suffix@) =~= before.push(token@));
        assert(v.buffer.subrange(start as int, j + 1) =~= v.buffer.subrange(start as int, j as int).push(token@));
        j += 1;
    }
    SearchKey {
        selected_mask,
        current_index,
        current_constraint: engine.state.current_constraint,
        uploaded_mask,
        suffix,
    }
}

/// One share of a blended score sum: a child's sum, the number of paths it
/// was taken over, and how many of those paths the parent accepted under the cap.
#[derive(Clone, Copy, Debug)]
pub struct SumPart {
    pub child: usize,
    pub child_paths: usize,
    pub accepted: usize,
}

/// How the sum of the terminal scores of a search state's paths is made: none,
/// one terminal score, or the children's averages each weighted by the paths
/// the parent accepted, in the children's order. Refers to earlier entries of
/// the list it is kept in; the caller evaluates it in floating point.
#[derive(Clone, Debug)]
pub enum ScoreSum {
    Zero,
    Leaf(u32),
    Blend(Vec<SumPart>),
}

/// What the search found below one state.
#[derive(Clone, Copy, Debug)]
pub struct SearchOutcome {
    pub best_score: u32,
    pub min_moves_to_best: Option<usize>,
    pub min_moves_to_all: Option<usize>,
    pub terminal_paths: CappedCount,
    pub all_paths: CappedCount,
    pub best_paths: CappedCount,
    pub score_sum: usize,
}

/// The integer results of a search, and the recipe for its expected score.
#[derive(Clone, Debug)]
pub struct SearchReport {
    pub total_score: u32,
    pub max_score: u32,
    pub all_sequences_solvable: bool,
    pub min_moves_to_all: Option<usize>,
    pub min_moves_to_max_score: Option<usize>,
    pub solution_count: usize,
    pub solution_count_capped: bool,
    pub terminal_paths: usize,
    pub terminal_paths_capped: bool,
    pub max_score_paths: usize,
    pub max_score_paths_capped: bool,
    pub dead_ends: usize,
    pub nodes_searched: usize,
    pub forced_states: usize,
    pub branch_points: usize,
    pub total_branches: usize,
    pub max_branching_factor: usize,
    pub optimal_moves: usize,
    pub trap_moves: usize,
    pub node_cap_reached: bool,
    pub score_sums: Vec<ScoreSum>,
    pub terminal_score_sum: usize,
}

/// Every entry refers to earlier ones only, with paths and accepted shares that are not empty.
pub open spec fn sums_well_formed(sums: Seq<ScoreSum>) -> bool {
    &&& sums.len() >= 1
    &&& sums[0] is Zero
    &&& forall|k: int| 0 <= k < sums.len() ==> match #[trigger] sums[k] {
        ScoreSum::Blend(parts) => forall|p: int| 0 <= p < parts@.len() ==> {
            &&& (#[trigger] parts@[p]).child < k
            &&& parts@[p].child_paths > 0
            &&& parts@[p].accepted > 0
        },
        _ => true,
    }
}

/// The sum of the final scores of the runs that entry `k` of the score sums
/// records, where every share it takes is whole: nothing for the empty sum, a
/// leaf's score, or the sums of the entries that a blend takes; `None` where
/// some share was cut by the cap or names no earlier entry.
pub open spec fn exact_sum(sums: Seq<ScoreSum>, k: int) -> Option<int>
    decreases k, 1int, 0int,
{
    if k < 0 || k >= sums.len() {
        None
    } else {
        match sums[k] {
            ScoreSum::Zero => Some(0),
            ScoreSum::Leaf(score) => Some(score as int),
            ScoreSum::Blend(parts) => parts_sum(sums, k, parts@, parts@.len() as int),
        }
    }
}

/// The sum over the first `p` shares of a blend at entry `k`, each taken whole.
pub open spec fn parts_sum(sums: Seq<ScoreSum>, k: int, parts: Seq<SumPart>, p: int) -> Option<int>
    decreases k, 0int, p,
{
    if p <= 0 {
        Some(0)
    } else if p > parts.len() || parts[p - 1].child >= k || parts[p - 1].accepted != parts[p - 1].child_paths {
        None
    } else {
        match (parts_sum(sums, k, parts, p - 1), exact_sum(sums, parts[p - 1].child as int)) {
            (Some(a), Some(b)) => Some(a + b),
            _ => None,
        }
    }
}

/// `longer` begins with `shorter`.
pub open spec fn extends(longer: Seq<ScoreSum>, shorter: Seq<ScoreSum>) -> bool {
    &&& shorter.len() <= longer.len()
    &&& forall|j: int| 0 <= j < shorter.len() ==> #[trigger] longer[j] == shorter[j]
}

/// An entry's sum is the same in every list that begins with the entries up to it.
proof fn lemma_exact_sum_extends(shorter: Seq<ScoreSum>, longer: Seq<ScoreSum>, k: int)
    requires
        extends(longer, shorter),
        0 <= k < shorter.len(),
    ensures
        exact_sum(longer, k) == exact_sum(shorter, k),
    decreases k, 1int, 0int,
{
    assert(longer[k] == shorter[k]);
    match shorter[k] {
        ScoreSum::Blend(parts) => {
            lemma_parts_sum_extends(shorter, longer, k, parts@, parts@.len() as int);
        },
        _ => {},
    }
}

/// A blend's sum over its first shares is the same in a longer list.
proof fn lemma_parts_sum_extends(shorter: Seq<ScoreSum>, longer: Seq<ScoreSum>, k: int, parts: Seq<SumPart>, p: int)
    requires
        extends(longer, shorter),
        0 <= k <= shorter.len(),
    ensures
        parts_sum(longer, k, parts, p) == parts_sum(shorter, k, parts, p),
    decreases k, 0int, p,
{
    if 0 < p <= parts.len() {
        lemma_parts_sum_extends(shorter, longer, k, parts, p - 1);
        if parts[p - 1].child < k {
            lemma_exact_sum_extends(shorter, longer, parts[p - 1].child as int);
        }
    }
}

/// A blend's sum over its first `p` shares depends on those shares alone.
proof fn lemma_parts_sum_prefix(sums: Seq<ScoreSum>, k: int, shorter: Seq<SumPart>, longer: Seq<SumPart>, p: int)
    requires
        0 <= p <= shorter.len() <= longer.len(),
        forall|j: int| 0 <= j < shorter.len() ==> #[trigger] longer[j] == shorter[j],
    ensures
        parts_sum(sums, k, longer, p) == parts_sum(sums, k, shorter, p),
    decreases p,
{
    if p > 0 {
        lemma_parts_sum_prefix(sums, k, shorter, longer, p - 1);
        assert(longer[p - 1] == shorter[p - 1]);
    }
}

/// Where no run count below the state passes the cap, the outcome's score sum
/// names an entry that sums the final scores of every run below it.
pub open spec fn sum_matches(sums: Seq<ScoreSum>, outcome: SearchOutcome, t: TreeOutcome, cap: int) -> bool {
    t.paths <= effective_cap(cap) ==> exact_sum(sums, outcome.score_sum as int) == Some(t.score_total)
}

impl SearchOutcome {
    /// Path counts within the cap, a move count for the best score, and a score
    /// sum that names an entry of a list of `sums_len` entries.
    pub open spec fn valid(self, cap: int, sums_len: int) -> bool {
        &&& self.terminal_paths.value <= effective_cap(cap)
        &&& self.all_paths.value <= effective_cap(cap)
        &&& self.best_paths.value <= effective_cap(cap)
        &&& self.min_moves_to_best is Some
        &&& self.score_sum < sums_len
    }
}

impl SearchReport {
    /// The counters agree with one another and stay within the node limit.
    pub open spec fn counters_consistent(&self, matrix_size: int, node_limit: int) -> bool {
        &&& self.nodes_searched <= node_limit
        &&& self.node_cap_reached ==> self.nodes_searched == node_limit
        &&& self.dead_ends + self.forced_states + self.branch_points <= self.nodes_searched
        &&& self.total_branches <= self.branch_points * matrix_size
        &&& self.total_branches + self.forced_states <= self.nodes_searched * matrix_size
        &&& self.nodes_searched * matrix_size <= usize::MAX
            ==> self.optimal_moves + self.trap_moves <= self.total_branches + self.forced_states
        &&& self.max_branching_factor <= matrix_size
        &&& sums_well_formed(self.score_sums@)
    }

    /// Every counter of `self` is at least that of `before`, the score sums
    /// only grew, and a reached node cap stays reached.
    pub open spec fn grew_from(&self, before: &SearchReport) -> bool {
        &&& self.nodes_searched >= before.nodes_searched
        &&& self.dead_ends >= before.dead_ends
        &&& self.forced_states >= before.forced_states
        &&& self.branch_points >= before.branch_points
        &&& self.total_branches >= before.total_branches
        &&& self.max_branching_factor >= before.max_branching_factor
        &&& self.optimal_moves >= before.optimal_moves
        &&& self.trap_moves >= before.trap_moves
        &&& before.node_cap_reached ==> self.node_cap_reached
        &&& self.score_sums@.len() >= before.score_sums@.len()
        &&& forall|k: int| 0 <= k < before.score_sums@.len() ==> #[trigger] self.score_sums@[k] == before.score_sums@[k]
    }
}

/// The state `w` is one of a run of the puzzle of `root`.
pub open spec fn of_puzzle(w: EngineView, root: EngineView) -> bool {
    &&& in_run(w)
    &&& w.matrix_size == root.matrix_size
    &&& w.buffer_size == root.buffer_size
    &&& w.matrix == root.matrix
    &&& w.sequences == root.sequences
    &&& w.values == root.values
}

/// A count capped at `cap` (at least 1) of `n` things: `n` up to the cap, and
/// marked capped exactly where `n` passes it.
pub open spec fn counts_as(count: CappedCount, n: nat, cap: int) -> bool {
    &&& count.value == (if n <= effective_cap(cap) { n as int } else { effective_cap(cap) })
    &&& count.capped == (n > effective_cap(cap))
}

/// The outcome holds what the tree below a state holds: its best score, the
/// fewest picks to it, the fewest picks to upload every daemon, if any run
/// does, and the counts of runs below it, each capped at `cap`.
pub open spec fn outcome_matches(outcome: SearchOutcome, t: TreeOutcome, cap: int) -> bool {
    &&& outcome.best_score == t.best
    &&& counts_as(outcome.terminal_paths, t.paths, cap)
    &&& counts_as(outcome.all_paths, t.full_paths, cap)
    &&& counts_as(outcome.best_paths, t.best_paths, cap)
    &&& outcome.min_moves_to_best matches Some(m) && m == t.best_moves
    &&& match (outcome.min_moves_to_all, t.all_moves) {
        (Some(a), Some(b)) => a == b,
        (None, None) => true,
        _ => false,
    }
}

/// The memo tells states apart well enough for its outcomes to be exact: every
/// cell index and every daemon has a bit in the key, and the kept end of the
/// buffer holds every daemon but its last token.
pub open spec fn memo_exact(root: EngineView, keep: int) -> bool {
    &&& root.matrix_size * root.matrix_size <= 128
    &&& root.sequences.len() <= 64
    &&& keep >= 0
    &&& keep_covers(root.sequences, keep)
}

/// A memo entry holds the tree below a state of a run of the puzzle that its
/// key describes, with its score sum in `sums`, a tree whose branching is at
/// most `branching` and which holds a trap only where `trapped`.
pub open spec fn entry_sound(entry: (SearchKey, SearchOutcome), root: EngineView, keep: int, cap: int, branching: int, trapped: bool, sums: Seq<ScoreSum>) -> bool {
    exists|w: EngineView| of_puzzle(w, root) && #[trigger] key_describes(entry.0, w, keep)
        && outcome_matches(entry.1, tree_outcome(w), cap)
        && sum_matches(sums, entry.1, tree_outcome(w), cap)
        && tree_max_branch(w) <= branching
        && (tree_has_trap(w) ==> trapped)
}

/// How many memo buckets there are; a key goes to the bucket of its
/// picked-cell bits modulo this.
pub const MEMO_BUCKETS: usize = 256;

/// The memo of search states: outcomes by key, in buckets by picked-cell bits.
struct Memo {
    buckets: Vec<Vec<(SearchKey, SearchOutcome)>>,
}

impl Memo {
    /// Each entry sits in its bucket and holds a valid outcome.
    spec fn wf(&self, cap: int, sums_len: int) -> bool {
        &&& self.buckets@.len() == MEMO_BUCKETS
        &&& forall|b: int, e: int| 0 <= b < MEMO_BUCKETS && 0 <= e < self.buckets@[b]@.len() ==> {
            &&& (#[trigger] self.buckets@[b]@[e]).0.selected_mask % (MEMO_BUCKETS as u128) == b
            &&& self.buckets@[b]@[e].1.valid(cap, sums_len)
        }
    }

    /// Every entry holds the tree below a state that its key describes.
    spec fn sound(&self, root: EngineView, keep: int, cap: int, branching: int, trapped: bool, sums: Seq<ScoreSum>) -> bool {
        forall|b: int, e: int| 0 <= b < MEMO_BUCKETS && 0 <= e < self.buckets@[b]@.len()
            ==> entry_sound(#[trigger] self.buckets@[b]@[e], root, keep, cap, branching, trapped, sums)
    }

    /// A sound memo stays sound as the branching bound grows, a trap is found
    /// or the score sums grow at their end.
    proof fn lemma_sound_grows(&self, root: EngineView, keep: int, cap: int,
        b1: int, t1: bool, s1: Seq<ScoreSum>, b2: int, t2: bool, s2: Seq<ScoreSum>)
        requires
            self.sound(root, keep, cap, b1, t1, s1),
            self.wf(cap, s1.len() as int),
            b1 <= b2,
            t1 ==> t2,
            extends(s2, s1),
        ensures
            self.sound(root, keep, cap, b2, t2, s2),
    {
        assert forall|b: int, e: int| 0 <= b < MEMO_BUCKETS && 0 <= e < self.buckets@[b]@.len()
            implies entry_sound(#[trigger] self.buckets@[b]@[e], root, keep, cap, b2, t2, s2) by {
            let entry = self.buckets@[b]@[e];
            assert(entry_sound(entry, root, keep, cap, b1, t1, s1));
            let w = choose|w: EngineView| of_puzzle(w, root) && #[trigger] key_describes(entry.0, w, keep)
                && outcome_matches(entry.1, tree_outcome(w), cap)
                && sum_matches(s1, entry.1, tree_outcome(w), cap)
                && tree_max_branch(w) <= b1
                && (tree_has_trap(w) ==> t1);
            assert(entry.1.valid(cap, s1.len() as int));
            lemma_exact_sum_extends(s1, s2, entry.1.score_sum as int);
            assert(key_describes(entry.0, w, keep));
        }
    }

    /// The bucket that `key` belongs in.
    spec fn bucket_of(&self, key: SearchKey) -> Seq<(SearchKey, SearchOutcome)> {
        self.buckets@[(key.selected_mask % (MEMO_BUCKETS as u128)) as int]@
    }

    /// An empty memo.
    fn new() -> (memo: Self)
        ensures
            memo.wf(0, 0),
            forall|root: EngineView, keep: int, cap: int, branching: int, trapped: bool, sums: Seq<ScoreSum>|
                #[trigger] memo.sound(root, keep, cap, branching, trapped, sums),
    {
        let mut buckets: Vec<Vec<(SearchKey, SearchOutcome)>> = Vec::new();
        let mut b: usize = 0;
        while b < MEMO_BUCKETS
            invariant
                b <= MEMO_BUCKETS,
                buckets@.len() == b,
                forall|k: int| 0 <= k < b ==> (#[trigger] buckets@[k])@.len() == 0,
            decreases MEMO_BUCKETS - b,
        {
            buckets.push(Vec::new());
            b += 1;
        }
        Memo { buckets }
    }

    /// A valid memo stays valid as the score sums grow or the cap is the same.
    proof fn lemma_wf_grows(&self, cap: int, sums_len: int, more: int)
        requires
            self.wf(cap, sums_len),
            sums_len <= more,
        ensures
            self.wf(cap, more),
    {
    }

    /// The outcome stored under a key that names the same state as `key`, if any:
    /// the first such entry of its bucket.
    fn get(&self, key: &SearchKey) -> (found: Option<SearchOutcome>)
        requires
            self.buckets@.len() == MEMO_BUCKETS,
        ensures
            found matches Some(outcome) ==> exists|e: int| {
                &&& 0 <= e < self.bucket_of(*key).len()
                &&& same_key_spec((#[trigger] self.bucket_of(*key)[e]).0, *key)
                &&& self.bucket_of(*key)[e].1 == outcome
            },
            found is None ==> forall|e: int| 0 <= e < self.bucket_of(*key).len()
                ==> !same_key_spec((#[trigger] self.bucket_of(*key)[e]).0, *key),
    {
        let b = (key.selected_mask % (MEMO_BUCKETS as u128)) as usize;
        let bucket = &self.buckets[b];
        let mut e: usize = 0;
        while e < bucket.len()
            invariant
                e <= bucket@.len(),
                self.buckets@.len() == MEMO_BUCKETS,
                b < MEMO_BUCKETS,
                bucket@ == self.buckets@[b as int]@,
                b == (key.selected_mask % (MEMO_BUCKETS as u128)) as int,
                forall|f: int| 0 <= f < e ==> !same_key_spec(#[trigger] bucket@[f].0, *key),
            decreases bucket@.len() - e,
        {
            if same_key(&bucket[e].0, key) {
                assert(self.bucket_of(*key)[e as int] == bucket@[e as int]);
                return Some(bucket[e].1);
            }
            e += 1;
        }
        None
    }

    /// Stores `outcome` under `key`, in place of an entry that names the same state.
    fn insert(&mut self, key: SearchKey, outcome: SearchOutcome)
        requires
            old(self).buckets@.len() == MEMO_BUCKETS,
        ensures
            final(self).buckets@.len() == MEMO_BUCKETS,
            forall|c: int| 0 <= c < MEMO_BUCKETS && c != (key.selected_mask % (MEMO_BUCKETS as u128)) as int
                ==> #[trigger] final(self).buckets@[c]@ == old(self).buckets@[c]@,
            stored_in(old(self).bucket_of(key), final(self).bucket_of(key), key, outcome),
            forall|cap: int, sums_len: int| old(self).wf(cap, sums_len) && outcome.valid(cap, sums_len)
                ==> #[trigger] final(self).wf(cap, sums_len),
            forall|root: EngineView, keep: int, cap: int, branching: int, trapped: bool, sums: Seq<ScoreSum>|
                old(self).sound(root, keep, cap, branching, trapped, sums)
                    && entry_sound((key, outcome), root, keep, cap, branching, trapped, sums)
                ==> #[trigger] final(self).sound(root, keep, cap, branching, trapped, sums),
    {
        let b = (key.selected_mask % (MEMO_BUCKETS as u128)) as usize;
        let ghost old_buckets = self.buckets@;
        let mut bucket: Vec<(SearchKey, SearchOutcome)> = Vec::new();
        std::mem::swap(&mut bucket, &mut self.buckets[b]);
        let ghost before = bucket@;
        assert(before == old_buckets[b as int]@);
        let mut e: usize = 0;
        let mut position: Option<usize> = None;
        while e < bucket.len()
            invariant_except_break
                position is None,
            invariant
                e <= bucket@.len(),
                bucket@ == before,
                forall|f: int| 0 <= f < e ==> !same_key_spec(#[trigger] before[f].0, key),
            ensures
                position matches Some(p) ==> {
                    &&& p < before.len()
                    &&& same_key_spec(before[p as int].0, key)
                    &&& forall|f: int| 0 <= f < p ==> !same_key_spec(#[trigger] before[f].0, key)
                },
                position is None ==> forall|f: int| 0 <= f < before.len() ==> !same_key_spec(#[trigger] before[f].0, key),
            decreases bucket@.len() - e,
        {
            if same_key(&bucket[e].0, &key) {
                position = Some(e);
                break;
            }
            e += 1;
        }
        let ghost keyed = key;
        match position {
            Some(p) => {
                bucket.set(p, (key, outcome));
            },
            None => {
                bucket.push((key, outcome));
            },
        }
        let ghost after = bucket@;
        assert(stored_in(before, after, keyed, outcome));
        assert(forall|f: int| 0 <= f < after.len() ==> (#[trigger] after[f]) == (keyed, outcome)
            || (f < before.len() && after[f] == before[f]));
        std::mem::swap(&mut bucket, &mut self.buckets[b]);
        assert(self.buckets@ =~= old_buckets.update(b as int, self.buckets@[b as int]));
        assert(self.buckets@[b as int]@ == after);
        assert forall|root: EngineView, keep: int, cap: int, branching: int, trapped: bool, sums: Seq<ScoreSum>|
            old(self).sound(root, keep, cap, branching, trapped, sums)
                && entry_sound((keyed, outcome), root, keep, cap, branching, trapped, sums)
            implies #[trigger] self.sound(root, keep, cap, branching, trapped, sums) by {
            assert forall|c: int, e: int| 0 <= c < MEMO_BUCKETS && 0 <= e < self.buckets@[c]@.len()
                implies entry_sound(#[trigger] self.buckets@[c]@[e], root, keep, cap, branching, trapped, sums) by {
                if c != b as int {
                    assert(self.buckets@[c]@[e] == old(self).buckets@[c]@[e]);
                } else if after[e] != (keyed, outcome) {
                    assert(old(self).buckets@[c]@[e] == before[e]);
                }
            }
        }
    }
}

/// `after` is the bucket `before` with `outcome` stored under `key`: in place
/// of the first entry whose key names the same state, or appended where none does.
pub open spec fn stored_in(
    before: Seq<(SearchKey, SearchOutcome)>,
    after: Seq<(SearchKey, SearchOutcome)>,
    key: SearchKey,
    outcome: SearchOutcome,
) -> bool {
    ||| exists|p: int| {
        &&& 0 <= p < before.len()
        &&& same_key_spec(#[trigger] before[p].0, key)
        &&& forall|f: int| 0 <= f < p ==> !same_key_spec(#[trigger] before[f].0, key)
        &&& after == before.update(p, (key, outcome))
    }
    ||| {
        &&& forall|f: int| 0 <= f < before.len() ==> !same_key_spec(#[trigger] before[f].0, key)
        &&& after == before.push((key, outcome))
    }
}

/// The sum of all values.
pub open spec fn values_total(values: Seq<u32>) -> int {
    uploaded_total(Seq::new(values.len(), |i: int| true), values, values.len() as int)
}

/// The score of a well-formed state never exceeds the sum of all values.
pub proof fn lemma_score_at_most_total(v: EngineView)
    requires
        v.wf(),
    ensures
        v.score() <= values_total(v.values),
{
    crate::laws::lemma_total_grows_with_flags(v.uploaded, Seq::new(v.values.len(), |i: int| true), v.values, v.values.len() as int);
}

/// The search of a state that the node cap stopped: its own score, no path counted.
fn incomplete_outcome(engine: &GameEngine) -> (outcome: SearchOutcome)
    requires
        engine@.score() <= u32::MAX,
    ensures
        outcome.best_score == engine@.score(),
        outcome.min_moves_to_best == Some(engine@.buffer.len() as usize),
        outcome.min_moves_to_all is None,
        outcome.terminal_paths.value == 0 && !outcome.terminal_paths.capped,
        outcome.all_paths.value == 0 && !outcome.all_paths.capped,
        outcome.best_paths.value == 0 && !outcome.best_paths.capped,
        outcome.score_sum == 0,
{
    SearchOutcome {
        best_score: engine.compute_score(),
        min_moves_to_best: Some(engine.state.buffer_tokens.len()),
        min_moves_to_all: None,
        terminal_paths: CappedCount::zero(),
        all_paths: CappedCount::zero(),
        best_paths: CappedCount::zero(),
        score_sum: 0,
    }
}

/// What a search from `v` needs: a well-formed state whose terminal reason is
/// the one it calls for, and scores and cell indices that fit.
pub open spec fn searchable(v: EngineView, node_limit: int) -> bool {
    &&& v.wf()
    &&& v.terminal == v.derived_terminal()
    &&& values_total(v.values) <= u32::MAX
    &&& v.matrix_size * v.matrix_size <= usize::MAX
}

/// A product with a count grows with the count.
proof fn lemma_scaled_grows(a: int, b: int, n: int)
    requires
        0 <= a <= b,
        n >= 0,
    ensures
        a * n <= b * n,
{
    assert(a * n <= b * n) by (nonlinear_arith)
        requires
            0 <= a <= b,
            n >= 0,
    ;
}

/// Searches every accepted series of picks from `engine`, within the node limit,
/// recording counts in `report`, score sums in its list, and outcomes in `memo`.
#[verifier::spinoff_prover]
#[verifier::rlimit(60)]
fn solve_state(
    engine: GameEngine,
    options: SolverOptions,
    max_suffix_len: usize,
    memo: &mut Memo,
    report: &mut SearchReport,
    Ghost(root): Ghost<EngineView>,
) -> (outcome: SearchOutcome)
    requires
        searchable(engine@, options.node_limit as int),
        of_puzzle(engine@, root),
        old(memo).wf(options.solution_cap as int, old(report).score_sums@.len() as int),
        memo_exact(root, max_suffix_len as int) && !old(report).node_cap_reached
            ==> old(memo).sound(root, max_suffix_len as int, options.solution_cap as int,
                old(report).max_branching_factor as int, old(report).trap_moves > 0, old(report).score_sums@),
        old(report).counters_consistent(engine@.matrix_size as int, options.node_limit as int),
    ensures
        final(report).counters_consistent(engine@.matrix_size as int, options.node_limit as int),
        final(report).grew_from(old(report)),
        final(report).nodes_searched * engine@.matrix_size <= usize::MAX
            ==> final(report).optimal_moves + final(report).trap_moves + old(report).total_branches + old(report).forced_states
                == final(report).total_branches + final(report).forced_states + old(report).optimal_moves + old(report).trap_moves,
        final(report).nodes_searched <= old(report).nodes_searched + tree_size(engine@),
        !old(report).node_cap_reached && old(report).nodes_searched + tree_size(engine@) <= options.node_limit
            ==> !final(report).node_cap_reached,
        final(memo).wf(options.solution_cap as int, final(report).score_sums@.len() as int),
        outcome.valid(options.solution_cap as int, final(report).score_sums@.len() as int),
        memo_exact(root, max_suffix_len as int) && !final(report).node_cap_reached
            ==> final(memo).sound(root, max_suffix_len as int, options.solution_cap as int,
                final(report).max_branching_factor as int, final(report).trap_moves > 0, final(report).score_sums@),
        memo_exact(root, max_suffix_len as int) && !final(report).node_cap_reached
            ==> final(report).max_branching_factor as int
                == max_nat(old(report).max_branching_factor as nat, tree_max_branch(engine@)),
        memo_exact(root, max_suffix_len as int) && !final(report).node_cap_reached
            ==> (final(report).trap_moves > 0) == (old(report).trap_moves > 0 || tree_has_trap(engine@)),
        memo_exact(root, max_suffix_len as int) && !final(report).node_cap_reached
            ==> outcome_matches(outcome, tree_outcome(engine@), options.solution_cap as int),
        memo_exact(root, max_suffix_len as int) && !final(report).node_cap_reached
            ==> sum_matches(final(report).score_sums@, outcome, tree_outcome(engine@), options.solution_cap as int),
    decreases engine@.buffer_size - engine@.buffer.len(),
{
    let ghost v = engine@;
    let ghost n = v.matrix_size as int;
    let ghost limit = options.node_limit as int;
    proof {
        lemma_score_at_most_total(v);
    }
    if report.node_cap_reached {
        return incomplete_outcome(&engine);
    }
    if report.nodes_searched >= options.node_limit {
        report.node_cap_reached = true;
        return incomplete_outcome(&engine);
    }
    if engine.is_terminal() {
        report.nodes_searched += 1;
        assert(report.nodes_searched * n == (report.nodes_searched - 1) * n + n) by (nonlinear_arith);
        let score = engine.compute_score();
        let moves = engine.state.buffer_tokens.len();
        let all_uploaded = engine.has_uploaded_all_sequences();
        if !all_uploaded {
            report.dead_ends += 1;
        }
        let id = report.score_sums.len();
        let ghost sums0 = report.score_sums@;
        report.score_sums.push(ScoreSum::Leaf(score));
        proof {
            if memo_exact(root, max_suffix_len as int) && !report.node_cap_reached {
                assert(extends(report.score_sums@, sums0));
                memo.lemma_sound_grows(root, max_suffix_len as int, options.solution_cap as int,
                    report.max_branching_factor as int, report.trap_moves > 0, sums0,
                    report.max_branching_factor as int, report.trap_moves > 0, report.score_sums@);
                assert(exact_sum(report.score_sums@, id as int) == Some(score as int));
            }
            memo.lemma_wf_grows(options.solution_cap as int, id as int, report.score_sums@.len() as int);
        }
        return SearchOutcome {
            best_score: score,
            min_moves_to_best: Some(moves),
            min_moves_to_all: if all_uploaded { Some(moves) } else { None },
            terminal_paths: CappedCount::one(),
            all_paths: if all_uploaded { CappedCount::one() } else { CappedCount::zero() },
            best_paths: CappedCount::one(),
            score_sum: id,
        };
    }
    let key = search_key(&engine, max_suffix_len);
    let ghost keep = max_suffix_len as int;
    let ghost exact = memo_exact(root, keep);
    match memo.get(&key) {
        Some(outcome) => {
            proof {
                if exact && !report.node_cap_reached {
                    let bucket = memo.bucket_of(key);
                    let e = choose|e: int| {
                        &&& 0 <= e < bucket.len()
                        &&& same_key_spec((#[trigger] bucket[e]).0, key)
                        &&& bucket[e].1 == outcome
                    };
                    let entry = bucket[e];
                    let b = (key.selected_mask % (MEMO_BUCKETS as u128)) as int;
                    assert(entry == memo.buckets@[b]@[e]);
                    assert(entry_sound(entry, root, keep, options.solution_cap as int,
                        report.max_branching_factor as int, report.trap_moves > 0, report.score_sums@));
                    let w = choose|w: EngineView| of_puzzle(w, root) && #[trigger] key_describes(entry.0, w, keep)
                        && outcome_matches(entry.1, tree_outcome(w), options.solution_cap as int)
                        && sum_matches(report.score_sums@, entry.1, tree_outcome(w), options.solution_cap as int)
                        && tree_max_branch(w) <= report.max_branching_factor as int
                        && (tree_has_trap(w) ==> report.trap_moves > 0);
                    lemma_same_key_same_position(v, w, key, entry.0, keep);
                    lemma_same_tree(v, w, keep);
                }
            }
            return outcome;
        },
        None => {},
    }
    report.nodes_searched += 1;
    assert(report.nodes_searched * n == (report.nodes_searched - 1) * n + n) by (nonlinear_arith);
    let legal_moves = engine.legal_moves();
    if legal_moves.len() == 0 {
        report.dead_ends += 1;
        let moves = engine.state.buffer_tokens.len();
        let score = engine.compute_score();
        let id = report.score_sums.len();
        let ghost sums0 = report.score_sums@;
        report.score_sums.push(ScoreSum::Leaf(score));
        let outcome = SearchOutcome {
            best_score: score,
            min_moves_to_best: Some(moves),
            min_moves_to_all: None,
            terminal_paths: CappedCount::one(),
            all_paths: CappedCount::zero(),
            best_paths: CappedCount::one(),
            score_sum: id,
        };
        proof {
            if exact && !report.node_cap_reached {
                assert(extends(report.score_sums@, sums0));
                memo.lemma_sound_grows(root, keep, options.solution_cap as int,
                    report.max_branching_factor as int, report.trap_moves > 0, sums0,
                    report.max_branching_factor as int, report.trap_moves > 0, report.score_sums@);
            }
            memo.lemma_wf_grows(options.solution_cap as int, id as int, report.score_sums@.len() as int);
            if exact && !report.node_cap_reached {
                let entry = (key, outcome);
                assert(of_puzzle(v, root));
                assert(key_describes(entry.0, v, keep));
                assert(outcome_matches(entry.1, tree_outcome(v), options.solution_cap as int));
                assert(exact_sum(report.score_sums@, id as int) == Some(score as int));
                assert(sum_matches(report.score_sums@, entry.1, tree_outcome(v), options.solution_cap as int));
                assert(entry_sound(entry, root, keep, options.solution_cap as int,
                    report.max_branching_factor as int, report.trap_moves > 0, report.score_sums@));
            }
        }
        memo.insert(key, outcome);
        return outcome;
    }
    let count = legal_moves.len();
    if count == 1 {
        report.forced_states += 1;
    } else {
        report.branch_points += 1;
        assert(report.total_branches + count <= report.branch_points * n) by (nonlinear_arith)
            requires
                report.total_branches <= (report.branch_points - 1) * n,
                count <= n,
        ;
        report.total_branches = report.total_branches.saturating_add(count);
    }
    proof {
        lemma_scaled_grows(old(report).nodes_searched as int, report.nodes_searched as int, n);
        lemma_scaled_grows(report.branch_points as int, report.nodes_searched as int, n);
        if report.nodes_searched * n <= usize::MAX {
            assert(report.total_branches + report.forced_states
                == old(report).total_branches + old(report).forced_states + count);
        }
    }
    if count > report.max_branching_factor {
        report.max_branching_factor = count;
    }
    let ghost at_node = *report;
    proof {
        if exact && !report.node_cap_reached {
            memo.lemma_sound_grows(root, keep, options.solution_cap as int,
                old(report).max_branching_factor as int, old(report).trap_moves > 0, report.score_sums@,
                report.max_branching_factor as int, report.trap_moves > 0, report.score_sums@);
        }
    }
    let cap = options.solution_cap;
    let mut child_outcomes: Vec<SearchOutcome> = Vec::new();
    let mut m: usize = 0;
    while m < count
        invariant
            m <= count,
            count == legal_moves@.len(),
            1 <= count <= n,
            engine@ == v,
            searchable(v, limit),
            v.terminal is None,
            n == v.matrix_size,
            limit == options.node_limit,
            cap == options.solution_cap,
            forall|cell: Cell| #[trigger] legal_moves@.contains(cell) <==> v.legal(cell),
            memo.wf(cap as int, report.score_sums@.len() as int),
            report.counters_consistent(n, limit),
            report.grew_from(&at_node),
            report.nodes_searched * n <= usize::MAX
                ==> report.optimal_moves + report.trap_moves + at_node.total_branches + at_node.forced_states
                    == report.total_branches + report.forced_states + at_node.optimal_moves + at_node.trap_moves,
            goes_on(v),
            tree_size(v) == 1 + children_size(v, count as int),
            report.nodes_searched <= at_node.nodes_searched + children_size(v, m as int),
            !at_node.node_cap_reached && at_node.nodes_searched + children_size(v, count as int) <= limit
                ==> !report.node_cap_reached,
            child_outcomes@.len() == m,
            forall|c: int| 0 <= c < child_outcomes@.len() ==> (#[trigger] child_outcomes@[c]).valid(cap as int, report.score_sums@.len() as int),
            legal_moves@ == v.legal_list(),
            of_puzzle(v, root),
            keep == max_suffix_len,
            exact == memo_exact(root, keep),
            exact && !report.node_cap_reached ==> {
                &&& memo.sound(root, keep, cap as int, report.max_branching_factor as int, report.trap_moves > 0, report.score_sums@)
                &&& forall|c: int| 0 <= c < child_outcomes@.len() ==> outcome_matches(#[trigger] child_outcomes@[c],
                    tree_outcome(v.after_move(legal_moves@[c])), cap as int)
                &&& forall|c: int| 0 <= c < child_outcomes@.len() ==> sum_matches(report.score_sums@, #[trigger] child_outcomes@[c],
                    tree_outcome(v.after_move(legal_moves@[c])), cap as int)
                &&& report.max_branching_factor as int
                    == max_nat(at_node.max_branching_factor as nat, children_max_branch(v, m as int))
                &&& (report.trap_moves > 0) == (at_node.trap_moves > 0 || children_trap(v, m as int))
            },
        decreases count - m,
    {
        let cell = legal_moves[m];
        assert(legal_moves@.contains(cell));
        let mut branch = engine.duplicate();
        match branch.apply_move(cell) {
            Ok(()) => {
                proof {
                    crate::engine::lemma_derived_ignores_terminal(branch@, None);
                    assert(branch@.values == v.values);
                    assert(branch@.buffer.len() == v.buffer.len() + 1);
                    lemma_in_run_step(v, cell);
                }
                let ghost before_child = *report;
                let ghost branch_view = branch@;
                proof {
                    lemma_children_size_grows(v, m + 1, count as int);
                }
                let child = solve_state(branch, options, max_suffix_len, memo, report, Ghost(root));
                proof {
                    lemma_scaled_grows(before_child.nodes_searched as int, report.nodes_searched as int, n);
                }
                child_outcomes.push(child);
                assert forall|c: int| 0 <= c < child_outcomes@.len() implies (#[trigger] child_outcomes@[c]).valid(cap as int, report.score_sums@.len() as int) by {
                    if c < child_outcomes@.len() - 1 {
                        assert(child_outcomes@[c].score_sum < before_child.score_sums@.len());
                    }
                }
                assert(exact && !report.node_cap_reached ==> forall|c: int| 0 <= c < child_outcomes@.len() ==> outcome_matches(#[trigger] child_outcomes@[c],
                    tree_outcome(v.after_move(legal_moves@[c])), cap as int)) by {
                    if exact && !report.node_cap_reached {
                        assert(!before_child.node_cap_reached);
                        assert(branch_view == v.after_move(legal_moves@[m as int]));
                    }
                }
                proof {
                    if exact && !report.node_cap_reached {
                        assert(!before_child.node_cap_reached);
                        assert(extends(report.score_sums@, before_child.score_sums@));
                        assert forall|c: int| 0 <= c < child_outcomes@.len() implies sum_matches(report.score_sums@,
                            #[trigger] child_outcomes@[c], tree_outcome(v.after_move(legal_moves@[c])), cap as int) by {
                            if c < child_outcomes@.len() - 1 {
                                assert(child_outcomes@[c].score_sum < before_child.score_sums@.len());
                                lemma_exact_sum_extends(before_child.score_sums@, report.score_sums@, child_outcomes@[c].score_sum as int);
                            } else {
                                assert(branch_view == v.after_move(legal_moves@[m as int]));
                            }
                        }
                        assert(branch_view == v.after_move(v.legal_list()[m as int]));
                        assert(children_max_branch(v, m + 1) == max_nat(children_max_branch(v, m as int), tree_max_branch(branch_view)));
                        assert(children_trap(v, m + 1) == (children_trap(v, m as int) || tree_has_trap(branch_view)));
                    }
                }
            },
            Err(_) => {},
        }
        m += 1;
    }
    let mut outcome = SearchOutcome {
        best_score: engine.compute_score(),
        min_moves_to_best: Some(engine.state.buffer_tokens.len()),
        min_moves_to_all: None,
        terminal_paths: CappedCount::zero(),
        all_paths: CappedCount::zero(),
        best_paths: CappedCount::zero(),
        score_sum: 0,
    };
    let ghost sums_len = report.score_sums@.len() as int;
    let mut parts: Vec<SumPart> = Vec::new();
    let mut c: usize = 0;
    while c < child_outcomes.len()
        invariant
            c <= child_outcomes@.len(),
            sums_len == report.score_sums@.len(),
            forall|k: int| 0 <= k < child_outcomes@.len() ==> (#[trigger] child_outcomes@[k]).valid(cap as int, sums_len),
            outcome.valid(cap as int, sums_len),
            outcome.score_sum == 0,
            child_outcomes@.len() == count,
            count == v.legal_list().len(),
            legal_moves@ == v.legal_list(),
            goes_on(v),
            exact && !report.node_cap_reached ==> {
                &&& memo.sound(root, keep, cap as int, report.max_branching_factor as int, report.trap_moves > 0, report.score_sums@)
                &&& forall|k: int| 0 <= k < child_outcomes@.len() ==> outcome_matches(#[trigger] child_outcomes@[k],
                    tree_outcome(v.after_move(legal_moves@[k])), cap as int)
                &&& forall|k: int| 0 <= k < child_outcomes@.len() ==> sum_matches(report.score_sums@, #[trigger] child_outcomes@[k],
                    tree_outcome(v.after_move(legal_moves@[k])), cap as int)
                &&& outcome_matches(outcome, merge_children(v, c as int), cap as int)
                &&& tree_outcome(v).paths <= effective_cap(cap as int) ==> {
                    &&& parts_sum(report.score_sums@, sums_len, parts@, parts@.len() as int)
                        == Some(merge_children(v, c as int).score_total)
                    &&& c > 0 ==> parts@.len() > 0
                }
                &&& report.max_branching_factor as int
                    == max_nat(at_node.max_branching_factor as nat, children_max_branch(v, count as int))
                &&& (report.trap_moves > 0) == (at_node.trap_moves > 0 || children_trap(v, count as int))
            },
            forall|p: int| 0 <= p < parts@.len() ==> {
                &&& (#[trigger] parts@[p]).child < sums_len
                &&& parts@[p].child_paths > 0
                &&& parts@[p].accepted > 0
            },
        decreases child_outcomes@.len() - c,
    {
        let child = child_outcomes[c];
        let accepted = capped_addend(outcome.terminal_paths, child.terminal_paths, cap);
        let ghost parts_before = parts@;
        proof {
            if exact && !report.node_cap_reached && tree_outcome(v).paths <= effective_cap(cap as int) {
                crate::game_tree::lemma_children_paths_grow(v, c + 1, count as int);
                crate::game_tree::lemma_children_paths_grow(v, c + 1, c + 1);
                assert(tree_outcome(v) == merge_children(v, count as int));
                assert(merge_children(v, c + 1) == crate::game_tree::merge(merge_children(v, c as int),
                    tree_outcome(v.after_move(v.legal_list()[c as int]))));
                assert(outcome_matches(child, tree_outcome(v.after_move(legal_moves@[c as int])), cap as int));
                assert(sum_matches(report.score_sums@, child, tree_outcome(v.after_move(legal_moves@[c as int])), cap as int));
                assert(accepted == child.terminal_paths.value && accepted > 0);
            }
        }
        if accepted > 0 && child.terminal_paths.value > 0 {
            parts.push(SumPart { child: child.score_sum, child_paths: child.terminal_paths.value, accepted });
        }
        proof {
            if exact && !report.node_cap_reached && tree_outcome(v).paths <= effective_cap(cap as int) {
                lemma_parts_sum_prefix(report.score_sums@, sums_len, parts_before, parts@, parts_before.len() as int);
                assert(parts@.len() == parts_before.len() + 1);
                assert(parts@[parts_before.len() as int].child == child.score_sum);
            }
        }
        outcome.terminal_paths.add(child.terminal_paths, cap);
        outcome.all_paths.add(child.all_paths, cap);
        if child.min_moves_to_all.is_some() {
            outcome.min_moves_to_all = min_option(outcome.min_moves_to_all, child.min_moves_to_all);
        }
        if outcome.min_moves_to_best.is_none() || child.best_score > outcome.best_score {
            outcome.best_score = child.best_score;
            outcome.min_moves_to_best = child.min_moves_to_best;
            outcome.best_paths = child.best_paths;
        } else if child.best_score == outcome.best_score {
            outcome.min_moves_to_best = min_option(outcome.min_moves_to_best, child.min_moves_to_best);
            outcome.best_paths.add(child.best_paths, cap);
        }
        proof {
            if exact && !report.node_cap_reached {
                assert(outcome_matches(child, tree_outcome(v.after_move(legal_moves@[c as int])), cap as int));
                assert(merge_children(v, c + 1) == crate::game_tree::merge(merge_children(v, c as int),
                    tree_outcome(v.after_move(v.legal_list()[c as int]))));
            }
        }
        c += 1;
    }
    let ghost sums_before = report.score_sums@;
    let ghost final_parts = parts@;
    if parts.len() > 0 {
        outcome.score_sum = report.score_sums.len();
        report.score_sums.push(ScoreSum::Blend(parts));
    }
    proof {
        if exact && !report.node_cap_reached {
            assert(extends(report.score_sums@, sums_before));
            memo.lemma_sound_grows(root, keep, cap as int,
                report.max_branching_factor as int, report.trap_moves > 0, sums_before,
                report.max_branching_factor as int, report.trap_moves > 0, report.score_sums@);
            if tree_outcome(v).paths <= effective_cap(cap as int) {
                assert(final_parts.len() > 0);
                lemma_parts_sum_extends(sums_before, report.score_sums@, sums_len, final_parts, final_parts.len() as int);
                assert(report.score_sums@[sums_len] == ScoreSum::Blend(parts));
                assert(exact_sum(report.score_sums@, sums_len) == Some(tree_outcome(v).score_total));
            }
        }
        memo.lemma_wf_grows(cap as int, sums_len, report.score_sums@.len() as int);
        if exact && !report.node_cap_reached {
            assert(tree_outcome(v) == merge_children(v, count as int));
        }
    }
    let ghost before_counting = *report;
    proof {
        lemma_scaled_grows(old(report).nodes_searched as int, at_node.nodes_searched as int, n);
        lemma_scaled_grows(at_node.nodes_searched as int, report.nodes_searched as int, n);
    }
    let mut d: usize = 0;
    while d < child_outcomes.len()
        invariant
            d <= child_outcomes@.len(),
            child_outcomes@.len() <= count,
            report.nodes_searched == before_counting.nodes_searched,
            report.dead_ends == before_counting.dead_ends,
            report.forced_states == before_counting.forced_states,
            report.branch_points == before_counting.branch_points,
            report.total_branches == before_counting.total_branches,
            report.max_branching_factor == before_counting.max_branching_factor,
            report.node_cap_reached == before_counting.node_cap_reached,
            report.score_sums@ == before_counting.score_sums@,
            report.optimal_moves >= before_counting.optimal_moves,
            report.trap_moves >= before_counting.trap_moves,
            d <= count,
            report.nodes_searched * n <= usize::MAX
                ==> report.optimal_moves + report.trap_moves == before_counting.optimal_moves + before_counting.trap_moves + d,
            before_counting.nodes_searched * n <= usize::MAX ==> before_counting.optimal_moves + before_counting.trap_moves + count
                <= before_counting.total_branches + before_counting.forced_states,
            before_counting.total_branches + before_counting.forced_states <= before_counting.nodes_searched * n,
            child_outcomes@.len() == count,
            count == v.legal_list().len(),
            legal_moves@ == v.legal_list(),
            goes_on(v),
            exact && !report.node_cap_reached ==> {
                &&& memo.sound(root, keep, cap as int, report.max_branching_factor as int, before_counting.trap_moves > 0, report.score_sums@)
                &&& outcome_matches(outcome, tree_outcome(v), cap as int)
                &&& sum_matches(report.score_sums@, outcome, tree_outcome(v), cap as int)
                &&& forall|k: int| 0 <= k < child_outcomes@.len() ==> outcome_matches(#[trigger] child_outcomes@[k],
                    tree_outcome(v.after_move(legal_moves@[k])), cap as int)
                &&& report.max_branching_factor as int
                    == max_nat(at_node.max_branching_factor as nat, children_max_branch(v, count as int))
                &&& (before_counting.trap_moves > 0) == (at_node.trap_moves > 0 || children_trap(v, count as int))
                &&& (report.trap_moves > 0) == (before_counting.trap_moves > 0
                    || children_worse(v, d as int, outcome.best_score as int))
            },
        decreases child_outcomes@.len() - d,
    {
        proof {
            if exact && !report.node_cap_reached {
                assert(outcome_matches(child_outcomes@[d as int], tree_outcome(v.after_move(legal_moves@[d as int])), cap as int));
                assert(children_worse(v, d + 1, outcome.best_score as int) == (children_worse(v, d as int, outcome.best_score as int)
                    || tree_outcome(v.after_move(v.legal_list()[d as int])).best != outcome.best_score as int));
            }
        }
        if child_outcomes[d].best_score == outcome.best_score {
            report.optimal_moves = report.optimal_moves.saturating_add(1);
        } else {
            report.trap_moves = report.trap_moves.saturating_add(1);
        }
        d += 1;
    }
    proof {
        if exact && !report.node_cap_reached {
            memo.lemma_sound_grows(root, keep, cap as int, report.max_branching_factor as int, before_counting.trap_moves > 0, report.score_sums@,
                report.max_branching_factor as int, report.trap_moves > 0, report.score_sums@);
            assert(tree_max_branch(v) == max_nat(count as nat, children_max_branch(v, count as int)));
            assert(tree_has_trap(v) == (children_worse(v, count as int, tree_outcome(v).best)
                || children_trap(v, count as int)));
            let entry = (key, outcome);
            assert(of_puzzle(v, root));
            assert(key_describes(entry.0, v, keep));
            assert(outcome_matches(entry.1, tree_outcome(v), cap as int));
            assert(entry_sound(entry, root, keep, cap as int, report.max_branching_factor as int, report.trap_moves > 0, report.score_sums@));
        }
    }
    memo.insert(key, outcome);
    outcome
}

/// The sum of all values, where it fits in 32 bits.
pub fn values_sum(values: &Vec<u32>) -> (total: u32)
    requires
        values_total(values@) <= u32::MAX,
    ensures
        total == values_total(values@),
{
    let ghost all = Seq::new(values@.len(), |i: int| true);
    proof {
        crate::engine::lemma_uploaded_total_monotone(all, values@, values@.len() as int);
    }
    let mut total: u32 = 0;
    let mut i: usize = 0;
    while i < values.len()
        invariant
            i <= values@.len(),
            all == Seq::new(values@.len(), |i: int| true),
            uploaded_total(all, values@, values@.len() as int) <= u32::MAX,
            forall|j: int| j <= values@.len() ==> #[trigger] uploaded_total(all, values@, j)
                <= uploaded_total(all, values@, values@.len() as int),
            total == uploaded_total(all, values@, i as int),
        decreases values@.len() - i,
    {
        assert(uploaded_total(all, values@, i + 1) <= u32::MAX);
        total = total + values[i];
        i += 1;
    }
    total
}

/// The report holds what the game tree below the opening holds: the best
/// score, the fewest picks to it, whether and in how few picks every daemon
/// can be uploaded, and the counts of runs, each capped at `cap`.
pub open spec fn report_matches(report: SearchReport, t: TreeOutcome, cap: int) -> bool {
    &&& report.max_score == t.best
    &&& report.terminal_paths == (if t.paths <= effective_cap(cap) { t.paths as int } else { effective_cap(cap) })
    &&& report.terminal_paths_capped == (t.paths > effective_cap(cap))
    &&& report.solution_count == (if t.full_paths <= effective_cap(cap) { t.full_paths as int } else { effective_cap(cap) })
    &&& report.solution_count_capped == (t.full_paths > effective_cap(cap))
    &&& report.max_score_paths == (if t.best_paths <= effective_cap(cap) { t.best_paths as int } else { effective_cap(cap) })
    &&& report.max_score_paths_capped == (t.best_paths > effective_cap(cap))
    &&& report.min_moves_to_max_score matches Some(m) && m == t.best_moves
    &&& report.all_sequences_solvable == t.all_moves is Some
    &&& match (report.min_moves_to_all, t.all_moves) {
        (Some(a), Some(b)) => a == b,
        (None, None) => true,
        _ => false,
    }
}

/// Searches every accepted series of picks of the puzzle from its opening,
/// after the checks of `GameEngine::new`: the integer results and the recipe of
/// the expected score. The floating-point rating is made from these by the caller.
pub fn explore_puzzle(
    config: &BreachConfig,
    matrix: &Vec<Vec<Token>>,
    sequences: &Vec<Vec<Token>>,
    sequence_values: &Vec<u32>,
    options: SolverOptions,
) -> (r: Result<SearchReport, GameError>)
    requires
        values_total(sequence_values@) <= u32::MAX,
        config.matrix_size * config.matrix_size <= usize::MAX,
    ensures
        r is Ok <==> config_problem(*config, grid_views(matrix@), sequences@.len() as int, sequence_values@.len() as int) is None,
        r matches Err(e) ==> crate::generator::config_error_says(e,
            config_problem(*config, grid_views(matrix@), sequences@.len() as int, sequence_values@.len() as int)),
        r matches Ok(report) ==> {
            &&& report.total_score == values_total(sequence_values@)
            &&& report.counters_consistent(config.matrix_size as int, options.node_limit as int)
            &&& report.terminal_paths <= effective_cap(options.solution_cap as int)
            &&& report.solution_count <= effective_cap(options.solution_cap as int)
            &&& report.max_score_paths <= effective_cap(options.solution_cap as int)
            &&& report.min_moves_to_max_score is Some
            &&& report.all_sequences_solvable == report.min_moves_to_all is Some
            &&& report.terminal_score_sum < report.score_sums@.len()
            &&& report.nodes_searched <= tree_size(opening_view(*config, matrix@, sequences@, sequence_values@))
            &&& tree_size(opening_view(*config, matrix@, sequences@, sequence_values@)) <= options.node_limit
                ==> !report.node_cap_reached
            &&& config.matrix_size * config.matrix_size <= 128 && sequences@.len() <= 64 && !report.node_cap_reached
                ==> report_matches(report, tree_outcome(opening_view(*config, matrix@, sequences@, sequence_values@)), options.solution_cap as int)
            &&& config.matrix_size * config.matrix_size <= 128 && sequences@.len() <= 64 && !report.node_cap_reached
                ==> report.max_branching_factor == tree_max_branch(opening_view(*config, matrix@, sequences@, sequence_values@))
            &&& config.matrix_size * config.matrix_size <= 128 && sequences@.len() <= 64 && !report.node_cap_reached
                ==> (report.trap_moves > 0) == tree_has_trap(opening_view(*config, matrix@, sequences@, sequence_values@))
            &&& report.nodes_searched * config.matrix_size <= usize::MAX
                ==> report.optimal_moves + report.trap_moves == report.total_branches + report.forced_states
            &&& config.matrix_size * config.matrix_size <= 128 && sequences@.len() <= 64 && !report.node_cap_reached
                ==> (report.solution_count > 0) == report.all_sequences_solvable
                    && report.solution_count <= report.terminal_paths
                    && report.max_score_paths <= report.terminal_paths
            &&& config.matrix_size * config.matrix_size <= 128 && sequences@.len() <= 64 && !report.node_cap_reached
                ==> report.terminal_paths == ({
                    let runs = run_count(opening_view(*config, matrix@, sequences@, sequence_values@));
                    if runs <= effective_cap(options.solution_cap as int) { runs as int }
                    else { effective_cap(options.solution_cap as int) }
                })
            &&& config.matrix_size * config.matrix_size <= 128 && sequences@.len() <= 64 && !report.node_cap_reached
                ==> report.solution_count == ({
                    let runs = full_run_count(opening_view(*config, matrix@, sequences@, sequence_values@));
                    if runs <= effective_cap(options.solution_cap as int) { runs as int }
                    else { effective_cap(options.solution_cap as int) }
                })
            &&& config.matrix_size * config.matrix_size <= 128 && sequences@.len() <= 64 && !report.node_cap_reached
                ==> report.max_score_paths == ({
                    let best_runs = runs_ending_on(opening_view(*config, matrix@, sequences@, sequence_values@),
                        report.max_score as int);
                    if best_runs <= effective_cap(options.solution_cap as int) { best_runs as int }
                    else { effective_cap(options.solution_cap as int) }
                })
            &&& config.matrix_size * config.matrix_size <= 128 && sequences@.len() <= 64 && !report.node_cap_reached
                && tree_outcome(opening_view(*config, matrix@, sequences@, sequence_values@)).paths
                    <= effective_cap(options.solution_cap as int)
                ==> exact_sum(report.score_sums@, report.terminal_score_sum as int)
                    == Some(tree_outcome(opening_view(*config, matrix@, sequences@, sequence_values@)).score_total)
                    && exact_sum(report.score_sums@, report.terminal_score_sum as int)
                    == Some(runs_score_total(opening_view(*config, matrix@, sequences@, sequence_values@)))
        },
{
    let own_config = BreachConfig {
        matrix_size: config.matrix_size,
        buffer_size: config.buffer_size,
        time_limit_seconds: config.time_limit_seconds,
        token_alphabet: copy_tokens(&config.token_alphabet),
        seed: config.seed,
    };
    let engine = match GameEngine::new(own_config, copy_grid(matrix), copy_grid(sequences), copy_items(sequence_values)) {
        Ok(engine) => engine,
        Err(e) => {
            return Err(e);
        },
    };
    let mut max_suffix_len: usize = 0;
    let mut k: usize = 0;
    while k < sequences.len()
        invariant
            k <= sequences@.len(),
            forall|j: int| 0 <= j < k ==> (#[trigger] sequences@[j])@.len() <= max_suffix_len + 1,
        decreases sequences@.len() - k,
    {
        let len = sequences[k].len();
        let here = if len >= 1 { len - 1 } else { 0 };
        if here > max_suffix_len {
            max_suffix_len = here;
        }
        k += 1;
    }
    let total_score = values_sum(sequence_values);
    let mut sums: Vec<ScoreSum> = Vec::new();
    sums.push(ScoreSum::Zero);
    let mut report = SearchReport {
        total_score: 0,
        max_score: 0,
        all_sequences_solvable: false,
        min_moves_to_all: None,
        min_moves_to_max_score: None,
        solution_count: 0,
        solution_count_capped: false,
        terminal_paths: 0,
        terminal_paths_capped: false,
        max_score_paths: 0,
        max_score_paths_capped: false,
        dead_ends: 0,
        nodes_searched: 0,
        forced_states: 0,
        branch_points: 0,
        total_branches: 0,
        max_branching_factor: 0,
        optimal_moves: 0,
        trap_moves: 0,
        node_cap_reached: false,
        score_sums: sums,
        terminal_score_sum: 0,
    };
    let mut memo = Memo::new();
    proof {
        memo.lemma_wf_grows(0, 0, 1);
        assert(engine@.values == sequence_values@);
        assert(engine@.matrix_size == config.matrix_size);
    }
    assert(memo.wf(options.solution_cap as int, 1));
    let ghost root = engine@;
    proof {
        assert(root == opening_view(*config, matrix@, sequences@, sequence_values@));
        assert forall|j: int| 0 <= j < root.sequences.len() implies #[trigger] root.sequences[j].len() <= max_suffix_len + 1 by {
            assert(root.sequences[j] == token_views(sequences@[j]@));
        }
        crate::game_tree::lemma_opening_in_run(root);
    }
    let outcome = solve_state(engine, options, max_suffix_len, &mut memo, &mut report, Ghost(root));
    report.total_score = total_score;
    report.max_score = outcome.best_score;
    report.all_sequences_solvable = outcome.min_moves_to_all.is_some();
    report.min_moves_to_all = outcome.min_moves_to_all;
    report.min_moves_to_max_score = outcome.min_moves_to_best;
    report.solution_count = outcome.all_paths.value;
    report.solution_count_capped = outcome.all_paths.capped;
    report.terminal_paths = outcome.terminal_paths.value;
    report.terminal_paths_capped = outcome.terminal_paths.capped;
    report.max_score_paths = outcome.best_paths.value;
    report.max_score_paths_capped = outcome.best_paths.capped;
    report.terminal_score_sum = outcome.score_sum;
    proof {
        crate::game_tree::law_solutions_iff_solvable(root);
        crate::game_tree::law_best_runs_are_counted(root);
        crate::game_tree::law_runs_are_counted(root);
        crate::game_tree::law_score_total_sums_runs(root);
    }
    Ok(report)
}

} // verus!
