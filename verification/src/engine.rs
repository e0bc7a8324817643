//! The game engine: matrix picks, the row/column rule, the buffer and the
//! daemon sequences that upload when they appear contiguously in the buffer.

use vstd::prelude::*;
use crate::text::{decimal_text, usize_text};

verus! {

/// One token of the code matrix, such as `"1C"`.
pub type Token = String;

/// A matrix cell as `(row, column)`.
pub type Cell = (usize, usize);

/// Which line the next pick must come from.
#[derive(Clone, Copy, Debug, PartialEq, Eq, Hash, Structural)]
pub enum ConstraintMode {
    Row,
    Column,
}

/// Why a run is over.
#[derive(Clone, Copy, Debug, PartialEq, Eq, Hash, Structural)]
pub enum TerminalReason {
    AllUploaded,
    BufferFull,
    OutOfTime,
    NoLegalMoves,
    NoCompletableSequences,
}

/// The parameters of a run.
#[derive(Clone, Debug)]
pub struct BreachConfig {
    pub matrix_size: usize,
    pub buffer_size: usize,
    pub time_limit_seconds: u64,
    pub token_alphabet: Vec<Token>,
    pub seed: Option<u64>,
}

/// The state of a run. `selected_cells` holds each picked cell once, in pick order.
#[derive(Clone, Debug)]
pub struct BreachState {
    pub matrix: Vec<Vec<Token>>,
    pub sequences: Vec<Vec<Token>>,
    pub sequence_values: Vec<u32>,
    pub buffer_tokens: Vec<Token>,
    pub selected_cells: Vec<Cell>,
    pub current_constraint: ConstraintMode,
    pub current_index: Option<Cell>,
    pub uploaded_results: Vec<bool>,
    pub terminal_reason: Option<TerminalReason>,
}

/// A run of the puzzle: its configuration and its state.
#[derive(Clone, Debug)]
pub struct GameEngine {
    pub config: BreachConfig,
    pub state: BreachState,
}

/// Why a move or a configuration was refused.
#[derive(Debug)]
pub enum GameError {
    InvalidMove(Cell),
    InvalidConfig(String),
}

/// The outcome of one daemon sequence at the end of a run.
#[derive(Debug, Clone)]
pub struct SequenceResult {
    pub sequence: Vec<Token>,
    pub uploaded: bool,
    pub value: u32,
}

/// The summary of a run.
#[derive(Debug, Clone)]
pub struct GameResult {
    pub success: bool,
    pub score: u32,
    pub sequences_uploaded: usize,
    pub total_sequences: usize,
    pub buffer_used: usize,
    pub buffer_full: bool,
    pub out_of_time: bool,
    pub terminal_reason: Option<TerminalReason>,
    pub sequence_results: Vec<SequenceResult>,
}

/// The mathematical model of a run: every token taken by its characters.
#[verifier::ext_equal]
pub struct EngineView {
    pub matrix_size: usize,
    pub buffer_size: usize,
    pub time_limit_seconds: u64,
    pub alphabet: Seq<Seq<char>>,
    pub seed: Option<u64>,
    pub matrix: Seq<Seq<Seq<char>>>,
    pub sequences: Seq<Seq<Seq<char>>>,
    pub values: Seq<u32>,
    pub buffer: Seq<Seq<char>>,
    pub selected: Seq<Cell>,
    pub constraint: ConstraintMode,
    pub current: Option<Cell>,
    pub uploaded: Seq<bool>,
    pub terminal: Option<TerminalReason>,
}

/// The rows of a matrix (or the daemon sequences), each token taken by its characters.
pub open spec fn grid_views(rows: Seq<Vec<Token>>) -> Seq<Seq<Seq<char>>> {
    rows.map_values(|row: Vec<Token>| token_views(row@))
}

impl View for GameEngine {
    type V = EngineView;

    open spec fn view(&self) -> EngineView {
        EngineView {
            matrix_size: self.config.matrix_size,
            buffer_size: self.config.buffer_size,
            time_limit_seconds: self.config.time_limit_seconds,
            alphabet: token_views(self.config.token_alphabet@),
            seed: self.config.seed,
            matrix: grid_views(self.state.matrix@),
            sequences: grid_views(self.state.sequences@),
            values: self.state.sequence_values@,
            buffer: token_views(self.state.buffer_tokens@),
            selected: self.state.selected_cells@,
            constraint: self.state.current_constraint,
            current: self.state.current_index,
            uploaded: self.state.uploaded_results@,
            terminal: self.state.terminal_reason,
        }
    }
}

/// The other line kind.
pub open spec fn flipped(mode: ConstraintMode) -> ConstraintMode {
    match mode {
        ConstraintMode::Row => ConstraintMode::Column,
        ConstraintMode::Column => ConstraintMode::Row,
    }
}

/// The sum of the values of the uploaded sequences among the first `k`.
pub open spec fn uploaded_total(uploaded: Seq<bool>, values: Seq<u32>, k: int) -> int
    decreases k,
{
    if k <= 0 {
        0
    } else {
        uploaded_total(uploaded, values, k - 1) + if uploaded[k - 1] { values[k - 1] as int } else { 0 }
    }
}

/// How many of the first `k` flags are set.
pub open spec fn count_set(flags: Seq<bool>, k: int) -> int
    decreases k,
{
    if k <= 0 {
        0
    } else {
        count_set(flags, k - 1) + if flags[k - 1] { 1int } else { 0 }
    }
}

impl EngineView {
    /// The matrix is `matrix_size` by `matrix_size`, the sequence data align,
    /// and the picks so far are distinct cells inside the matrix.
    pub open spec fn wf(self) -> bool {
        &&& self.matrix.len() == self.matrix_size
        &&& forall|r: int| 0 <= r < self.matrix.len() ==> #[trigger] self.matrix[r].len() == self.matrix_size
        &&& self.values.len() == self.sequences.len()
        &&& self.uploaded.len() == self.sequences.len()
        &&& self.selected.no_duplicates()
        &&& forall|i: int| 0 <= i < self.selected.len() ==>
            (#[trigger] self.selected[i]).0 < self.matrix_size && self.selected[i].1 < self.matrix_size
        &&& self.current matches Some(c) ==> c.0 < self.matrix_size && c.1 < self.matrix_size
    }

    /// What a pick needs of a state: a `matrix_size` square matrix, an upload
    /// flag for every sequence, and a last pick inside the matrix.
    pub open spec fn movable(self) -> bool {
        &&& self.matrix.len() == self.matrix_size
        &&& forall|r: int| 0 <= r < self.matrix.len() ==> #[trigger] self.matrix[r].len() == self.matrix_size
        &&& self.uploaded.len() >= self.sequences.len()
        &&& self.current matches Some(c) ==> c.0 < self.matrix_size && c.1 < self.matrix_size
    }

    /// Whether `cell` may be picked next: the first pick comes from the top row;
    /// after that it lies on the current row or column and was not picked before.
    pub open spec fn legal(self, cell: Cell) -> bool {
        if self.buffer.len() == 0 {
            cell.0 == 0 && cell.1 < self.matrix_size
        } else {
            match self.current {
                None => false,
                Some(c) => match self.constraint {
                    ConstraintMode::Row => cell.0 == c.0 && cell.1 < self.matrix_size && !self.selected.contains(cell),
                    ConstraintMode::Column => cell.1 == c.1 && cell.0 < self.matrix_size && !self.selected.contains(cell),
                },
            }
        }
    }

    /// The cells that may be picked next, in row-major order.
    pub open spec fn legal_list(self) -> Seq<Cell> {
        if self.buffer.len() == 0 {
            free_line_cells(Seq::empty(), self.matrix_size as int, 0, true)
        } else {
            match self.current {
                None => Seq::empty(),
                Some(c) => match self.constraint {
                    ConstraintMode::Row => free_line_cells(self.selected, self.matrix_size as int, c.0 as int, true),
                    ConstraintMode::Column => free_line_cells(self.selected, self.matrix_size as int, c.1 as int, false),
                },
            }
        }
    }

    pub open spec fn has_legal(self) -> bool {
        exists|cell: Cell| self.legal(cell)
    }

    /// Picks left before the buffer is full.
    pub open spec fn remaining_slots(self) -> int {
        if self.buffer.len() <= self.buffer_size { self.buffer_size - self.buffer.len() } else { 0 }
    }

    /// Whether sequence `i` is uploaded or can still be.
    pub open spec fn can_upload(self, i: int) -> bool {
        &&& 0 <= i < self.sequences.len()
        &&& (0 <= i < self.uploaded.len() && self.uploaded[i])
            || can_still_upload(self.buffer, self.sequences[i], self.remaining_slots())
    }

    pub open spec fn all_uploaded(self) -> bool {
        &&& self.sequences.len() > 0
        &&& forall|i: int| 0 <= i < self.uploaded.len() ==> self.uploaded[i]
    }

    pub open spec fn any_unuploaded(self) -> bool {
        exists|i: int| 0 <= i < self.uploaded.len() && !self.uploaded[i]
    }

    pub open spec fn has_completable(self) -> bool {
        exists|i: int| 0 <= i < self.sequences.len() && !self.uploaded[i] && self.can_upload(i)
    }

    /// The terminal reason that the state calls for, the timer aside.
    pub open spec fn derived_terminal(self) -> Option<TerminalReason> {
        if self.all_uploaded() {
            Some(TerminalReason::AllUploaded)
        } else if self.buffer.len() >= self.buffer_size {
            Some(TerminalReason::BufferFull)
        } else if !self.has_legal() {
            Some(TerminalReason::NoLegalMoves)
        } else if self.any_unuploaded() && !self.has_completable() {
            Some(TerminalReason::NoCompletableSequences)
        } else {
            None
        }
    }

    /// The terminal reason after an update: a timeout stays, else the derived one.
    pub open spec fn settled_terminal(self) -> Option<TerminalReason> {
        if self.terminal == Some(TerminalReason::OutOfTime) {
            Some(TerminalReason::OutOfTime)
        } else {
            self.derived_terminal()
        }
    }

    /// The upload flags once every sequence that appears in `buffer` is marked.
    pub open spec fn uploaded_for(self, buffer: Seq<Seq<char>>) -> Seq<bool> {
        Seq::new(
            self.uploaded.len(),
            |i: int| self.uploaded[i] || (i < self.sequences.len() && appears_in(buffer, self.sequences[i])),
        )
    }

    /// The state after picking `cell`.
    pub open spec fn after_move(self, cell: Cell) -> EngineView {
        let buffer = self.buffer.push(self.matrix[cell.0 as int][cell.1 as int]);
        let picked = EngineView {
            buffer: buffer,
            selected: if self.selected.contains(cell) { self.selected } else { self.selected.push(cell) },
            current: Some(cell),
            uploaded: self.uploaded_for(buffer),
            constraint: flipped(self.constraint),
            ..self
        };
        EngineView { terminal: picked.settled_terminal(), ..picked }
    }

    /// The score: the sum of the values of the uploaded sequences.
    pub open spec fn score(self) -> int {
        uploaded_total(
            self.uploaded,
            self.values,
            if self.uploaded.len() < self.values.len() { self.uploaded.len() as int } else { self.values.len() as int },
        )
    }

    /// A state in which a run begins: nothing picked yet, and the terminal
    /// reason is the one that the state calls for.
    pub open spec fn is_opening(self) -> bool {
        &&& self.is_initial()
        &&& self.terminal == self.derived_terminal()
    }

    /// Nothing picked yet.
    pub open spec fn is_initial(self) -> bool {
        &&& self.buffer.len() == 0
        &&& self.selected.len() == 0
        &&& self.constraint == ConstraintMode::Row
        &&& self.current is None
        &&& self.uploaded == Seq::new(self.sequences.len(), |i: int| false)
    }
}

/// The tokens of a list, each taken by its characters.
pub open spec fn token_views(tokens: Seq<Token>) -> Seq<Seq<char>> {
    tokens.map_values(|t: Token| t@)
}

/// `sequence` stands in `buffer` as the contiguous run that begins at `start`.
pub open spec fn window_matches(buffer: Seq<Seq<char>>, sequence: Seq<Seq<char>>, start: int) -> bool {
    &&& 0 <= start
    &&& start + sequence.len() <= buffer.len()
    &&& buffer.subrange(start, start + sequence.len()) == sequence
}

/// A non-empty `sequence` appears contiguously somewhere in `buffer`.
pub open spec fn appears_in(buffer: Seq<Seq<char>>, sequence: Seq<Seq<char>>) -> bool {
    &&& sequence.len() > 0
    &&& exists|start: int| window_matches(buffer, sequence, start)
}

/// The `len` tokens of `buffer` from `start` on equal the first `len` tokens of `sequence`.
pub(crate) fn run_matches(buffer: &[Token], sequence: &[Token], start: usize, len: usize) -> (r: bool)
    requires
        start + len <= buffer@.len(),
        len <= sequence@.len(),
    ensures
        r == (token_views(buffer@).subrange(start as int, start + len)
            == token_views(sequence@).subrange(0, len as int)),
{
    let ghost b = token_views(buffer@);
    let ghost s = token_views(sequence@);
    let n = buffer.len();
    let mut i: usize = 0;
    while i < len
        invariant
            i <= len,
            len <= sequence@.len(),
            start + len <= buffer@.len(),
            n == buffer@.len(),
            b == token_views(buffer@),
            s == token_views(sequence@),
            forall|j: int| 0 <= j < i ==> b[start + j] == s[j],
        decreases len - i,
    {
        if !(buffer[start + i] == sequence[i]) {
            assert(b.subrange(start as int, start + len)[i as int] != s.subrange(0, len as int)[i as int]);
            return false;
        }
        i += 1;
    }
    assert(b.subrange(start as int, start + len) =~= s.subrange(0, len as int));
    true
}

/// Whether `sequence` is non-empty and appears contiguously in `buffer`.
pub fn sequence_in_buffer(buffer: &[Token], sequence: &[Token]) -> (r: bool)
    ensures
        r == appears_in(token_views(buffer@), token_views(sequence@)),
{
    let ghost b = token_views(buffer@);
    let ghost s = token_views(sequence@);
    let n = buffer.len();
    let len = sequence.len();
    if len == 0 || len > n {
        return false;
    }
    let mut start: usize = 0;
    while start <= n - len
        invariant
            n == buffer@.len(),
            len == sequence@.len(),
            0 < len <= n,
            start <= n - len + 1,
            b == token_views(buffer@),
            s == token_views(sequence@),
            forall|k: int| 0 <= k < start ==> !window_matches(b, s, k),
        decreases n - start,
    {
        if run_matches(buffer, sequence, start, len) {
            assert(s.subrange(0, len as int) =~= s);
            assert(window_matches(b, s, start as int));
            return true;
        }
        assert(s.subrange(0, len as int) =~= s);
        start += 1;
    }
    false
}

/// The last `k` tokens of `buffer` are the first `k` tokens of `sequence`, for `k >= 1`.
pub open spec fn overlaps(buffer: Seq<Seq<char>>, sequence: Seq<Seq<char>>, k: int) -> bool {
    &&& 1 <= k
    &&& k <= sequence.len()
    &&& k <= buffer.len()
    &&& buffer.subrange(buffer.len() - k, buffer.len() as int) == sequence.subrange(0, k)
}

/// The longest overlap of at most `k` tokens, or 0 where there is none.
pub open spec fn longest_overlap_upto(buffer: Seq<Seq<char>>, sequence: Seq<Seq<char>>, k: nat) -> nat
    decreases k,
{
    if k == 0 {
        0
    } else if overlaps(buffer, sequence, k as int) {
        k
    } else {
        longest_overlap_upto(buffer, sequence, (k - 1) as nat)
    }
}

/// How many leading tokens of `sequence` the end of `buffer` already holds:
/// the longest overlap of the buffer's end with the sequence's start.
pub open spec fn suffix_progress(buffer: Seq<Seq<char>>, sequence: Seq<Seq<char>>) -> nat {
    longest_overlap_upto(
        buffer,
        sequence,
        if sequence.len() < buffer.len() { sequence.len() } else { buffer.len() },
    )
}

/// Whether `sequence` can still upload with `remaining` picks left: it is empty
/// or already in the buffer, it fits whole, or the rest of a begun overlap fits.
pub open spec fn can_still_upload(buffer: Seq<Seq<char>>, sequence: Seq<Seq<char>>, remaining: int) -> bool {
    ||| sequence.len() == 0
    ||| appears_in(buffer, sequence)
    ||| sequence.len() <= remaining
    ||| (suffix_progress(buffer, sequence) > 0 && sequence.len() - suffix_progress(buffer, sequence) <= remaining)
}

/// The longest overlap up to `k` is an overlap (or 0) and no longer one up to `k` exists.
pub proof fn lemma_longest_overlap(buffer: Seq<Seq<char>>, sequence: Seq<Seq<char>>, k: nat)
    ensures
        longest_overlap_upto(buffer, sequence, k) <= k,
        longest_overlap_upto(buffer, sequence, k) == 0
            || overlaps(buffer, sequence, longest_overlap_upto(buffer, sequence, k) as int),
        forall|j: int| longest_overlap_upto(buffer, sequence, k) < j <= k ==> !overlaps(buffer, sequence, j),
    decreases k,
{
    if k > 0 && !overlaps(buffer, sequence, k as int) {
        lemma_longest_overlap(buffer, sequence, (k - 1) as nat);
    }
}

/// The suffix progress is an overlap (or 0), and it is the longest one.
pub proof fn lemma_suffix_progress(buffer: Seq<Seq<char>>, sequence: Seq<Seq<char>>)
    ensures
        suffix_progress(buffer, sequence) <= sequence.len(),
        suffix_progress(buffer, sequence) <= buffer.len(),
        suffix_progress(buffer, sequence) == 0
            || overlaps(buffer, sequence, suffix_progress(buffer, sequence) as int),
        forall|j: int| suffix_progress(buffer, sequence) < j ==> !overlaps(buffer, sequence, j),
{
    let m = if sequence.len() < buffer.len() { sequence.len() } else { buffer.len() };
    lemma_longest_overlap(buffer, sequence, m);
}

/// The number of leading tokens of `sequence` that the end of `buffer` holds.
pub fn sequence_suffix_progress(buffer: &[Token], sequence: &[Token]) -> (r: usize)
    ensures
        r == suffix_progress(token_views(buffer@), token_views(sequence@)),
        r == 0 || overlaps(token_views(buffer@), token_views(sequence@), r as int),
        forall|j: int| r < j ==> !overlaps(token_views(buffer@), token_views(sequence@), j),
{
    let ghost b = token_views(buffer@);
    let ghost s = token_views(sequence@);
    proof {
        lemma_suffix_progress(b, s);
    }
    if sequence.len() == 0 {
        return 0;
    }
    let n = buffer.len();
    let max_len = if sequence.len() < n { sequence.len() } else { n };
    let mut len = max_len;
    while len >= 1
        invariant
            len <= max_len,
            max_len <= n,
            max_len <= sequence@.len(),
            n == buffer@.len(),
            b == token_views(buffer@),
            s == token_views(sequence@),
            max_len == (if s.len() < b.len() { s.len() } else { b.len() }),
            longest_overlap_upto(b, s, max_len as nat) == longest_overlap_upto(b, s, len as nat),
        decreases len,
    {
        if run_matches(buffer, sequence, n - len, len) {
            assert(overlaps(b, s, len as int));
            proof {
                lemma_suffix_progress(b, s);
            }
            return len;
        }
        assert(!overlaps(b, s, len as int));
        len -= 1;
    }
    0
}

/// Whether `sequence` can still upload from `buffer` within `remaining_slots` picks.
pub fn sequence_can_still_upload(buffer: &[Token], sequence: &[Token], remaining_slots: usize) -> (r: bool)
    ensures
        r == can_still_upload(token_views(buffer@), token_views(sequence@), remaining_slots as int),
{
    if sequence.len() == 0 || sequence_in_buffer(buffer, sequence) {
        return true;
    }
    if sequence.len() <= remaining_slots {
        return true;
    }
    let progress = sequence_suffix_progress(buffer, sequence);
    proof {
        lemma_suffix_progress(token_views(buffer@), token_views(sequence@));
    }
    let rest = if sequence.len() > progress { sequence.len() - progress } else { 0 };
    progress > 0 && rest <= remaining_slots
}

/// Whether `cell` is among the picked cells.
pub(crate) fn cell_selected(selected: &Vec<Cell>, cell: Cell) -> (r: bool)
    ensures
        r == selected@.contains(cell),
{
    let mut i: usize = 0;
    while i < selected.len()
        invariant
            i <= selected@.len(),
            forall|j: int| 0 <= j < i ==> selected@[j] != cell,
        decreases selected@.len() - i,
    {
        let c = selected[i];
        if c.0 == cell.0 && c.1 == cell.1 {
            assert(selected@[i as int] == cell);
            return true;
        }
        i += 1;
    }
    false
}

/// `cell` lies on line `line` (a row when `along_row`, else a column) of an `n` by `n` matrix.
pub open spec fn on_line(cell: Cell, n: int, line: int, along_row: bool) -> bool {
    if along_row {
        cell.0 == line && cell.1 < n
    } else {
        cell.1 == line && cell.0 < n
    }
}

/// The cell at position `k` of line `line` (a row when `along_row`, else a column).
pub open spec fn line_cell(line: int, k: int, along_row: bool) -> Cell {
    if along_row { (line as usize, k as usize) } else { (k as usize, line as usize) }
}

/// The first `n` cells of a line, in order.
pub open spec fn line_cells(n: int, line: int, along_row: bool) -> Seq<Cell> {
    Seq::new(n as nat, |k: int| line_cell(line, k, along_row))
}

/// The cells of a line of an `n` by `n` matrix that were not picked, in order.
pub open spec fn free_line_cells(selected: Seq<Cell>, n: int, line: int, along_row: bool) -> Seq<Cell> {
    line_cells(n, line, along_row).filter(|c: Cell| !selected.contains(c))
}

/// The position of `cell` along a row (its column) or along a column (its row).
pub open spec fn position(cell: Cell, along_row: bool) -> int {
    if along_row { cell.1 as int } else { cell.0 as int }
}

/// Each cell comes before the next in row-major order.
pub open spec fn cells_ascending(cells: Seq<Cell>) -> bool {
    forall|i: int, j: int| 0 <= i < j < cells.len() ==> {
        ||| (#[trigger] cells[i]).0 < (#[trigger] cells[j]).0
        ||| (cells[i].0 == cells[j].0 && cells[i].1 < cells[j].1)
    }
}

/// The cells of a line of an `n` by `n` matrix that were not picked, in order along the line.
pub(crate) fn free_cells_in_line(selected: &Vec<Cell>, n: usize, line: usize, along_row: bool) -> (cells: Vec<Cell>)
    ensures
        forall|cell: Cell| #[trigger] cells@.contains(cell) <==> (on_line(cell, n as int, line as int, along_row)
            && !selected@.contains(cell)),
        cells@.no_duplicates(),
        cells_ascending(cells@),
        cells@.len() <= n,
        cells@ == free_line_cells(selected@, n as int, line as int, along_row),
{
    let mut cells: Vec<Cell> = Vec::new();
    let mut k: usize = 0;
    while k < n
        invariant
            k <= n,
            forall|cell: Cell| #[trigger] cells@.contains(cell) <==> (on_line(cell, k as int, line as int, along_row)
                && !selected@.contains(cell)),
            forall|i: int| 0 <= i < cells@.len() ==> on_line(#[trigger] cells@[i], k as int, line as int, along_row),
            forall|i: int, j: int| 0 <= i < j < cells@.len() ==> position(#[trigger] cells@[i], along_row)
                < position(#[trigger] cells@[j], along_row),
            cells@.len() <= k,
            k <= usize::MAX,
            cells@ == free_line_cells(selected@, k as int, line as int, along_row),
        decreases n - k,
    {
        let cell = if along_row { (line, k) } else { (k, line) };
        let ghost before = cells@;
        proof {
            let pred = |c: Cell| !selected@.contains(c);
            assert(line_cells(k + 1, line as int, along_row) =~= line_cells(k as int, line as int, along_row).push(cell));
            line_cells(k as int, line as int, along_row).lemma_filter_push(cell, pred);
        }
        if !cell_selected(selected, cell) {
            cells.push(cell);
            assert forall|c: Cell| #[trigger] cells@.contains(c) <==> (before.contains(c) || c == cell) by {
                if c == cell {
                    assert(cells@[before.len() as int] == c);
                }
                if before.contains(c) {
                    let i = choose|i: int| 0 <= i < before.len() && before[i] == c;
                    assert(cells@[i] == c);
                }
                if cells@.contains(c) && c != cell {
                    let i = choose|i: int| 0 <= i < cells@.len() && cells@[i] == c;
                    assert(before[i] == c);
                }
            }
        }
        k += 1;
    }
    cells
}

/// Whether a line of an `n` by `n` matrix holds a cell that was not picked.
fn line_has_free_cell(selected: &Vec<Cell>, n: usize, line: usize, along_row: bool) -> (r: bool)
    ensures
        r == exists|cell: Cell| on_line(cell, n as int, line as int, along_row) && !selected@.contains(cell),
{
    let mut k: usize = 0;
    while k < n
        invariant
            k <= n,
            forall|cell: Cell| on_line(cell, k as int, line as int, along_row) ==> selected@.contains(cell),
        decreases n - k,
    {
        let cell = if along_row { (line, k) } else { (k, line) };
        if !cell_selected(selected, cell) {
            assert(on_line(cell, n as int, line as int, along_row) && !selected@.contains(cell));
            return true;
        }
        k += 1;
    }
    false
}

/// The smallest of three numbers.
pub open spec fn min3(a: int, b: int, c: int) -> int {
    if a <= b && a <= c { a } else if b <= c { b } else { c }
}

fn min3_usize(a: usize, b: usize, c: usize) -> (m: usize)
    ensures
        m == min3(a as int, b as int, c as int),
{
    if a <= b && a <= c { a } else if b <= c { b } else { c }
}

/// A partial sum never exceeds a longer one.
pub proof fn lemma_uploaded_total_monotone(uploaded: Seq<bool>, values: Seq<u32>, k: int)
    ensures
        forall|j: int| j <= k ==> #[trigger] uploaded_total(uploaded, values, j) <= uploaded_total(uploaded, values, k),
    decreases k,
{
    if k > 0 {
        lemma_uploaded_total_monotone(uploaded, values, k - 1);
    }
    assert forall|j: int| j <= k implies #[trigger] uploaded_total(uploaded, values, j) <= uploaded_total(uploaded, values, k) by {
        if j < k && k > 0 {
            assert(uploaded_total(uploaded, values, j) <= uploaded_total(uploaded, values, k - 1));
        }
        if k <= 0 && j <= 0 {
        }
    }
}

/// A copy of a token list.
pub fn copy_tokens(tokens: &Vec<Token>) -> (copy: Vec<Token>)
    ensures
        copy@ == tokens@,
{
    let mut copy: Vec<Token> = Vec::new();
    let mut i: usize = 0;
    while i < tokens.len()
        invariant
            i <= tokens@.len(),
            copy@ == tokens@.subrange(0, i as int),
        decreases tokens@.len() - i,
    {
        copy.push(tokens[i].clone());
        i += 1;
        assert(copy@ =~= tokens@.subrange(0, i as int));
    }
    assert(tokens@.subrange(0, i as int) =~= tokens@);
    copy
}

/// A copy of a list of plain values.
pub fn copy_items<T: Copy>(items: &Vec<T>) -> (copy: Vec<T>)
    ensures
        copy@ == items@,
{
    let mut copy: Vec<T> = Vec::new();
    let mut i: usize = 0;
    while i < items.len()
        invariant
            i <= items@.len(),
            copy@ == items@.subrange(0, i as int),
        decreases items@.len() - i,
    {
        copy.push(items[i]);
        i += 1;
        assert(copy@ =~= items@.subrange(0, i as int));
    }
    assert(items@.subrange(0, i as int) =~= items@);
    copy
}

/// A copy of a matrix (or of a list of daemon sequences).
pub fn copy_grid(rows: &Vec<Vec<Token>>) -> (copy: Vec<Vec<Token>>)
    ensures
        copy@.len() == rows@.len(),
        forall|i: int| 0 <= i < rows@.len() ==> (#[trigger] copy@[i])@ == rows@[i]@,
        grid_views(copy@) == grid_views(rows@),
{
    let mut copy: Vec<Vec<Token>> = Vec::new();
    let mut i: usize = 0;
    while i < rows.len()
        invariant
            i <= rows@.len(),
            copy@.len() == i,
            forall|k: int| 0 <= k < i ==> (#[trigger] copy@[k])@ == rows@[k]@,
        decreases rows@.len() - i,
    {
        copy.push(copy_tokens(&rows[i]));
        i += 1;
    }
    assert(grid_views(copy@) =~= grid_views(rows@));
    copy
}

/// What `GameEngine::new` refuses, in its order of checks, with the message it gives.
pub open spec fn config_problem(config: BreachConfig, matrix: Seq<Seq<Seq<char>>>, sequence_count: int, value_count: int) -> Option<Seq<char>> {
    if config.token_alphabet@.len() == 0 {
        Some("Token alphabet cannot be empty"@)
    } else if matrix.len() != config.matrix_size {
        Some("Matrix size mismatch: expected "@ + decimal_text(config.matrix_size as nat))
    } else if exists|r: int| 0 <= r < matrix.len() && #[trigger] matrix[r].len() != config.matrix_size {
        Some("Matrix row size mismatch: expected "@ + decimal_text(config.matrix_size as nat))
    } else if sequence_count != value_count {
        Some("Sequences and values must align"@)
    } else {
        None
    }
}

/// The state in which `GameEngine::new` starts a run.
pub open spec fn opening_view(config: BreachConfig, matrix: Seq<Vec<Token>>, sequences: Seq<Vec<Token>>, values: Seq<u32>) -> EngineView {
    let start = EngineView {
        matrix_size: config.matrix_size,
        buffer_size: config.buffer_size,
        time_limit_seconds: config.time_limit_seconds,
        alphabet: token_views(config.token_alphabet@),
        seed: config.seed,
        matrix: grid_views(matrix),
        sequences: grid_views(sequences),
        values: values,
        buffer: Seq::empty(),
        selected: Seq::empty(),
        constraint: ConstraintMode::Row,
        current: None,
        uploaded: Seq::new(sequences.len(), |i: int| false),
        terminal: None,
    };
    EngineView { terminal: start.derived_terminal(), ..start }
}

/// A legal pick keeps the state well formed.
pub proof fn lemma_after_move_wf(v: EngineView, cell: Cell)
    requires
        v.wf(),
        v.legal(cell),
    ensures
        v.after_move(cell).wf(),
{
    let w = v.after_move(cell);
    let sel = w.selected;
    assert(cell.0 < v.matrix_size && cell.1 < v.matrix_size);
    assert forall|i: int| 0 <= i < sel.len() implies
        (#[trigger] sel[i]).0 < w.matrix_size && sel[i].1 < w.matrix_size by {
        if i < v.selected.len() {
            assert(sel[i] == v.selected[i]);
        }
    }
    if !v.selected.contains(cell) {
        assert forall|i: int, j: int| 0 <= i < sel.len() && 0 <= j < sel.len() && i != j
            implies sel[i] != sel[j] by {
            if i == v.selected.len() {
                assert(v.selected[j] == sel[j]);
            } else if j == v.selected.len() {
                assert(v.selected[i] == sel[i]);
            }
        }
    }
}

/// The terminal reason that a state calls for does not depend on its stored one.
pub proof fn lemma_derived_ignores_terminal(v: EngineView, terminal: Option<TerminalReason>)
    ensures
        (EngineView { terminal: terminal, ..v }).derived_terminal() == v.derived_terminal(),
{
    let w = EngineView { terminal: terminal, ..v };
    if w.has_legal() {
        let c = choose|c: Cell| w.legal(c);
        assert(v.legal(c));
    }
    if v.has_legal() {
        let c = choose|c: Cell| v.legal(c);
        assert(w.legal(c));
    }
    if w.has_completable() {
        let i = choose|i: int| 0 <= i < w.sequences.len() && !w.uploaded[i] && w.can_upload(i);
        assert(v.can_upload(i));
    }
    if v.has_completable() {
        let i = choose|i: int| 0 <= i < v.sequences.len() && !v.uploaded[i] && v.can_upload(i);
        assert(w.can_upload(i));
    }
    assert(w.any_unuploaded() == v.any_unuploaded());
    assert(w.all_uploaded() == v.all_uploaded());
}

impl GameError {
    /// The text of the error: the refused cell as `(row, column)`, or the configuration problem.
    pub open spec fn message_view(&self) -> Seq<char> {
        match self {
            GameError::InvalidMove(cell) => "Invalid move: ("@ + decimal_text(cell.0 as nat) + ", "@
                + decimal_text(cell.1 as nat) + ")"@,
            GameError::InvalidConfig(message) => "Invalid config: "@ + message@,
        }
    }

    /// The text of the error.
    pub fn message(&self) -> (text: String)
        ensures
            text@ == self.message_view(),
    {
        match self {
            GameError::InvalidMove(cell) => {
                let mut text = String::from_str("Invalid move: (");
                text.append(usize_text(cell.0).as_str());
                text.append(", ");
                text.append(usize_text(cell.1).as_str());
                text.append(")");
                text
            },
            GameError::InvalidConfig(message) => {
                let mut text = String::from_str("Invalid config: ");
                text.append(message.as_str());
                text
            },
        }
    }
}

impl GameEngine {
    /// Every cell that may be picked next, each once, in row-major order.
    pub fn legal_moves(&self) -> (moves: Vec<Cell>)
        ensures
            forall|cell: Cell| #[trigger] moves@.contains(cell) <==> self@.legal(cell),
            moves@.no_duplicates(),
            cells_ascending(moves@),
            moves@.len() <= self@.matrix_size,
            moves@ == self@.legal_list(),
    {
        let n = self.config.matrix_size;
        if self.state.buffer_tokens.len() == 0 {
            let none: Vec<Cell> = Vec::new();
            let moves = free_cells_in_line(&none, n, 0, true);
            assert forall|cell: Cell| #[trigger] moves@.contains(cell) <==> self@.legal(cell) by {
                assert(!none@.contains(cell));
            }
            return moves;
        }
        match self.state.current_index {
            None => {
                let moves: Vec<Cell> = Vec::new();
                assert(moves@ =~= self@.legal_list());
                moves
            },
            Some((row, col)) => match self.state.current_constraint {
                ConstraintMode::Row => free_cells_in_line(&self.state.selected_cells, n, row, true),
                ConstraintMode::Column => free_cells_in_line(&self.state.selected_cells, n, col, false),
            },
        }
    }

    /// Whether `cell` may be picked next.
    pub fn is_valid_move(&self, cell: Cell) -> (r: bool)
        ensures
            r == self@.legal(cell),
    {
        let moves = self.legal_moves();
        cell_selected(&moves, cell)
    }

    /// Whether any cell may be picked next.
    pub fn has_legal_moves(&self) -> (r: bool)
        ensures
            r == self@.has_legal(),
    {
        let n = self.config.matrix_size;
        if self.state.buffer_tokens.len() == 0 {
            if n > 0 {
                assert(self@.legal((0, 0)));
            }
            return n > 0;
        }
        match self.state.current_index {
            None => false,
            Some((row, col)) => match self.state.current_constraint {
                ConstraintMode::Row => {
                    let r = line_has_free_cell(&self.state.selected_cells, n, row, true);
                    proof {
                        if r {
                            let cell = choose|cell: Cell| on_line(cell, n as int, row as int, true)
                                && !self@.selected.contains(cell);
                            assert(self@.legal(cell));
                        }
                    }
                    r
                },
                ConstraintMode::Column => {
                    let r = line_has_free_cell(&self.state.selected_cells, n, col, false);
                    proof {
                        if r {
                            let cell = choose|cell: Cell| on_line(cell, n as int, col as int, false)
                                && !self@.selected.contains(cell);
                            assert(self@.legal(cell));
                        }
                    }
                    r
                },
            },
        }
    }

    /// Marks every sequence that now appears contiguously in the buffer as uploaded.
    pub fn evaluate_uploaded(&mut self)
        requires
            old(self)@.uploaded.len() >= old(self)@.sequences.len(),
        ensures
            final(self)@ == (EngineView { uploaded: old(self)@.uploaded_for(old(self)@.buffer), ..old(self)@ }),
    {
        let ghost start = self@;
        let count = self.state.sequences.len();
        let mut idx: usize = 0;
        while idx < count
            invariant
                count == start.sequences.len(),
                start.uploaded.len() >= start.sequences.len(),
                idx <= count,
                self@ == (EngineView { uploaded: self@.uploaded, ..start }),
                self@.uploaded.len() == start.uploaded.len(),
                forall|i: int| 0 <= i < idx ==> self@.uploaded[i] == start.uploaded_for(start.buffer)[i],
                forall|i: int| idx <= i < self@.uploaded.len() ==> self@.uploaded[i] == start.uploaded[i],
            decreases count - idx,
        {
            if !self.state.uploaded_results[idx] {
                if sequence_in_buffer(&self.state.buffer_tokens, &self.state.sequences[idx]) {
                    self.state.uploaded_results.set(idx, true);
                }
            }
            idx += 1;
        }
        assert(self@.uploaded =~= start.uploaded_for(start.buffer));
    }

    /// Whether a run is over.
    pub fn is_terminal(&self) -> (r: bool)
        ensures
            r == (self@.terminal is Some),
    {
        self.state.terminal_reason.is_some()
    }

    /// Why the run is over, if it is.
    pub fn terminal_reason(&self) -> (r: Option<TerminalReason>)
        ensures
            r == self@.terminal,
    {
        self.state.terminal_reason
    }

    /// Ends a run that is still going because its time ran out.
    pub fn force_timeout(&mut self)
        ensures
            final(self)@ == (EngineView {
                terminal: if old(self)@.terminal is None { Some(TerminalReason::OutOfTime) } else { old(self)@.terminal },
                ..old(self)@
            }),
    {
        if self.state.terminal_reason.is_none() {
            self.state.terminal_reason = Some(TerminalReason::OutOfTime);
        }
    }

    /// Whether there are sequences and every one is uploaded.
    pub fn has_uploaded_all_sequences(&self) -> (r: bool)
        ensures
            r == self@.all_uploaded(),
    {
        if self.state.sequences.len() == 0 {
            return false;
        }
        let mut i: usize = 0;
        while i < self.state.uploaded_results.len()
            invariant
                i <= self@.uploaded.len(),
                forall|j: int| 0 <= j < i ==> self@.uploaded[j],
            decreases self@.uploaded.len() - i,
        {
            if !self.state.uploaded_results[i] {
                return false;
            }
            i += 1;
        }
        true
    }

    fn has_unuploaded_sequences(&self) -> (r: bool)
        ensures
            r == self@.any_unuploaded(),
    {
        let mut i: usize = 0;
        while i < self.state.uploaded_results.len()
            invariant
                i <= self@.uploaded.len(),
                forall|j: int| 0 <= j < i ==> self@.uploaded[j],
            decreases self@.uploaded.len() - i,
        {
            if !self.state.uploaded_results[i] {
                return true;
            }
            i += 1;
        }
        false
    }

    /// Whether sequence `sequence_index` is uploaded or can still be.
    pub fn can_sequence_still_upload(&self, sequence_index: usize) -> (r: bool)
        ensures
            r == self@.can_upload(sequence_index as int),
    {
        if sequence_index >= self.state.sequences.len() {
            return false;
        }
        if sequence_index < self.state.uploaded_results.len() && self.state.uploaded_results[sequence_index] {
            return true;
        }
        let used = self.state.buffer_tokens.len();
        let remaining = if self.config.buffer_size >= used { self.config.buffer_size - used } else { 0 };
        sequence_can_still_upload(
            self.state.buffer_tokens.as_slice(),
            self.state.sequences[sequence_index].as_slice(),
            remaining,
        )
    }

    /// How many leading tokens of sequence `sequence_index` the end of the buffer holds.
    pub fn sequence_progress(&self, sequence_index: usize) -> (r: usize)
        ensures
            r == (if sequence_index < self@.sequences.len() {
                suffix_progress(self@.buffer, self@.sequences[sequence_index as int])
            } else {
                0
            }),
    {
        if sequence_index >= self.state.sequences.len() {
            return 0;
        }
        sequence_suffix_progress(
            self.state.buffer_tokens.as_slice(),
            self.state.sequences[sequence_index].as_slice(),
        )
    }

    /// Whether some sequence that is not uploaded can still be.
    pub fn has_completable_sequence(&self) -> (r: bool)
        requires
            self@.uploaded.len() >= self@.sequences.len(),
        ensures
            r == self@.has_completable(),
    {
        let mut idx: usize = 0;
        while idx < self.state.sequences.len()
            invariant
                idx <= self@.sequences.len(),
                self@.uploaded.len() >= self@.sequences.len(),
                forall|i: int| 0 <= i < idx ==> !(!self@.uploaded[i] && self@.can_upload(i)),
            decreases self@.sequences.len() - idx,
        {
            if !self.state.uploaded_results[idx] && self.can_sequence_still_upload(idx) {
                return true;
            }
            idx += 1;
        }
        false
    }

    fn update_terminal_reason(&mut self)
        requires
            old(self)@.uploaded.len() >= old(self)@.sequences.len(),
        ensures
            final(self)@ == (EngineView { terminal: old(self)@.settled_terminal(), ..old(self)@ }),
    {
        if self.state.terminal_reason == Some(TerminalReason::OutOfTime) {
            return;
        }
        let reason = if self.has_uploaded_all_sequences() {
            Some(TerminalReason::AllUploaded)
        } else if self.state.buffer_tokens.len() >= self.config.buffer_size {
            Some(TerminalReason::BufferFull)
        } else if !self.has_legal_moves() {
            Some(TerminalReason::NoLegalMoves)
        } else if self.has_unuploaded_sequences() && !self.has_completable_sequence() {
            Some(TerminalReason::NoCompletableSequences)
        } else {
            None
        };
        self.state.terminal_reason = reason;
    }
    /// Picks `cell`: its token joins the buffer, the line rule flips, sequences
    /// that now appear in the buffer upload and the terminal reason is updated.
    /// A finished run or an illegal cell is refused and nothing changes.
    pub fn apply_move(&mut self, cell: Cell) -> (r: Result<(), GameError>)
        requires
            old(self)@.movable(),
        ensures
            old(self)@.terminal is None && old(self)@.legal(cell) ==> r is Ok && final(self)@ == old(self)@.after_move(cell),
            !(old(self)@.terminal is None && old(self)@.legal(cell)) ==> r == Err::<(), GameError>(GameError::InvalidMove(cell))
                && *final(self) == *old(self),
            final(self)@.movable(),
            old(self)@.wf() ==> final(self)@.wf(),
            r is Ok && final(self)@.all_uploaded() ==> final(self)@.terminal == Some(TerminalReason::AllUploaded),
            r is Ok && final(self)@.terminal == Some(TerminalReason::BufferFull)
                ==> !final(self)@.all_uploaded() && final(self)@.buffer.len() >= final(self)@.buffer_size,
    {
        proof {
            crate::laws::law_full_upload_ends_the_run(old(self)@, cell);
        }
        if self.state.terminal_reason.is_some() {
            return Err(GameError::InvalidMove(cell));
        }
        if !self.is_valid_move(cell) {
            return Err(GameError::InvalidMove(cell));
        }
        let ghost start = self@;
        let (row, col) = cell;
        proof {
            assert(row < start.matrix_size && col < start.matrix_size);
            assert(start.matrix[row as int].len() == start.matrix_size);
            assert(self.state.matrix@[row as int]@.len() == start.matrix[row as int].len());
        }
        let token = self.state.matrix[row][col].clone();
        self.state.buffer_tokens.push(token);
        if !cell_selected(&self.state.selected_cells, cell) {
            self.state.selected_cells.push(cell);
        }
        self.state.current_index = Some(cell);
        assert(self@.buffer =~= start.buffer.push(start.matrix[row as int][col as int]));
        self.evaluate_uploaded();
        self.state.current_constraint = match self.state.current_constraint {
            ConstraintMode::Row => ConstraintMode::Column,
            ConstraintMode::Column => ConstraintMode::Row,
        };
        self.update_terminal_reason();
        proof {
            assert(self@ =~= start.after_move(cell));
            if start.wf() {
                lemma_after_move_wf(start, cell);
            }
        }
        Ok(())
    }

    /// The score: the sum of the values of the uploaded sequences.
    pub fn compute_score(&self) -> (score: u32)
        requires
            self@.score() <= u32::MAX,
        ensures
            score == self@.score(),
    {
        let k = if self.state.uploaded_results.len() < self.state.sequence_values.len() {
            self.state.uploaded_results.len()
        } else {
            self.state.sequence_values.len()
        };
        proof {
            lemma_uploaded_total_monotone(self@.uploaded, self@.values, k as int);
        }
        let mut total: u32 = 0;
        let mut i: usize = 0;
        while i < k
            invariant
                i <= k,
                k <= self@.uploaded.len(),
                k <= self@.values.len(),
                uploaded_total(self@.uploaded, self@.values, k as int) <= u32::MAX,
                forall|j: int| 0 <= j <= k ==> #[trigger] uploaded_total(self@.uploaded, self@.values, j)
                    <= uploaded_total(self@.uploaded, self@.values, k as int),
                total == uploaded_total(self@.uploaded, self@.values, i as int),
            decreases k - i,
        {
            assert(uploaded_total(self@.uploaded, self@.values, i + 1) <= u32::MAX);
            if self.state.uploaded_results[i] {
                total = total + self.state.sequence_values[i];
            }
            i += 1;
        }
        total
    }

    /// The summary of the run as it stands.
    pub fn get_game_result(&self) -> (result: GameResult)
        requires
            self@.score() <= u32::MAX,
        ensures
            result.success == (self@.score() > 0),
            result.score == self@.score(),
            result.sequences_uploaded == count_set(self@.uploaded, self@.uploaded.len() as int),
            result.total_sequences == self@.sequences.len(),
            result.buffer_used == self@.buffer.len(),
            result.buffer_full == (self@.buffer.len() >= self@.buffer_size),
            result.out_of_time == (self@.terminal == Some(TerminalReason::OutOfTime)),
            result.terminal_reason == self@.terminal,
            result.sequence_results@.len() == min3(self@.sequences.len() as int, self@.uploaded.len() as int, self@.values.len() as int),
            forall|i: int| 0 <= i < result.sequence_results@.len() ==> {
                &&& token_views((#[trigger] result.sequence_results@[i]).sequence@) == self@.sequences[i]
                &&& result.sequence_results@[i].uploaded == self@.uploaded[i]
                &&& result.sequence_results@[i].value == self@.values[i]
            },
    {
        let score = self.compute_score();
        let mut uploaded: usize = 0;
        let mut i: usize = 0;
        while i < self.state.uploaded_results.len()
            invariant
                i <= self@.uploaded.len(),
                uploaded == count_set(self@.uploaded, i as int),
                uploaded <= i,
            decreases self@.uploaded.len() - i,
        {
            if self.state.uploaded_results[i] {
                uploaded += 1;
            }
            i += 1;
        }
        let n = min3_usize(
            self.state.sequences.len(),
            self.state.uploaded_results.len(),
            self.state.sequence_values.len(),
        );
        let mut sequence_results: Vec<SequenceResult> = Vec::new();
        let mut j: usize = 0;
        while j < n
            invariant
                j <= n,
                n == min3(self@.sequences.len() as int, self@.uploaded.len() as int, self@.values.len() as int),
                sequence_results@.len() == j,
                forall|t: int| 0 <= t < j ==> {
                    &&& token_views((#[trigger] sequence_results@[t]).sequence@) == self@.sequences[t]
                    &&& sequence_results@[t].uploaded == self@.uploaded[t]
                    &&& sequence_results@[t].value == self@.values[t]
                },
            decreases n - j,
        {
            let sequence = copy_tokens(&self.state.sequences[j]);
            sequence_results.push(
                SequenceResult {
                    sequence,
                    uploaded: self.state.uploaded_results[j],
                    value: self.state.sequence_values[j],
                },
            );
            j += 1;
        }
        GameResult {
            success: score > 0,
            score,
            sequences_uploaded: uploaded,
            total_sequences: self.state.sequences.len(),
            buffer_used: self.state.buffer_tokens.len(),
            buffer_full: self.state.buffer_tokens.len() >= self.config.buffer_size,
            out_of_time: match self.state.terminal_reason {
                Some(TerminalReason::OutOfTime) => true,
                _ => false,
            },
            terminal_reason: self.state.terminal_reason,
            sequence_results,
        }
    }

    /// Starts a run on `matrix` with the daemon `sequences` and their values,
    /// after checking the alphabet, the matrix shape and the value count.
    pub fn new(
        config: BreachConfig,
        matrix: Vec<Vec<Token>>,
        sequences: Vec<Vec<Token>>,
        sequence_values: Vec<u32>,
    ) -> (r: Result<Self, GameError>)
        ensures
            match r {
                Ok(engine) => {
                    &&& config_problem(config, grid_views(matrix@), sequences@.len() as int, sequence_values@.len() as int) is None
                    &&& engine@ == opening_view(config, matrix@, sequences@, sequence_values@)
                    &&& engine@.wf()
                    &&& engine@.is_opening()
                },
                Err(e) => match e {
                    GameError::InvalidConfig(text) => config_problem(
                        config,
                        grid_views(matrix@),
                        sequences@.len() as int,
                        sequence_values@.len() as int,
                    ) == Some(text@),
                    GameError::InvalidMove(_) => false,
                },
            },
    {
        let ghost problem = config_problem(config, grid_views(matrix@), sequences@.len() as int, sequence_values@.len() as int);
        if config.token_alphabet.len() == 0 {
            return Err(GameError::InvalidConfig(String::from_str("Token alphabet cannot be empty")));
        }
        let n = config.matrix_size;
        if matrix.len() != n {
            let mut text = String::from_str("Matrix size mismatch: expected ");
            text.append(usize_text(n).as_str());
            return Err(GameError::InvalidConfig(text));
        }
        let mut r: usize = 0;
        while r < matrix.len()
            invariant
                r <= matrix@.len(),
                n == config.matrix_size,
                matrix@.len() == n,
                config.token_alphabet@.len() > 0,
                forall|k: int| 0 <= k < r ==> (#[trigger] matrix@[k])@.len() == n,
            decreases matrix@.len() - r,
        {
            if matrix[r].len() != n {
                assert(grid_views(matrix@)[r as int].len() != n);
                let mut text = String::from_str("Matrix row size mismatch: expected ");
                text.append(usize_text(n).as_str());
                return Err(GameError::InvalidConfig(text));
            }
            r += 1;
        }
        assert(forall|k: int| 0 <= k < matrix@.len() ==> #[trigger] grid_views(matrix@)[k].len() == n);
        if sequences.len() != sequence_values.len() {
            return Err(GameError::InvalidConfig(String::from_str("Sequences and values must align")));
        }
        let mut uploaded_results: Vec<bool> = Vec::new();
        let mut k: usize = 0;
        while k < sequences.len()
            invariant
                k <= sequences@.len(),
                uploaded_results@ == Seq::new(k as nat, |i: int| false),
            decreases sequences@.len() - k,
        {
            uploaded_results.push(false);
            k += 1;
        }
        let state = BreachState {
            matrix,
            sequences,
            sequence_values,
            buffer_tokens: Vec::new(),
            selected_cells: Vec::new(),
            current_constraint: ConstraintMode::Row,
            current_index: None,
            uploaded_results,
            terminal_reason: None,
        };
        let mut engine = GameEngine { config, state };
        let ghost opening = opening_view(config, engine.state.matrix@, engine.state.sequences@, engine.state.sequence_values@);
        proof {
            assert(engine@.buffer =~= Seq::<Seq<char>>::empty());
            assert(engine@.uploaded =~= Seq::new(engine@.sequences.len(), |i: int| false));
            assert(engine@ =~= EngineView { terminal: None, ..opening });
        }
        engine.update_terminal_reason();
        proof {
            assert(engine@ =~= opening);
            lemma_derived_ignores_terminal(opening, None);
            assert((EngineView { terminal: None, ..opening }) =~= EngineView { terminal: None, ..engine@ });
        }
        Ok(engine)
    }

    /// A copy of the run, equal to it in every token and field.
    pub fn duplicate(&self) -> (copy: Self)
        ensures
            copy@ == self@,
    {
        let config = BreachConfig {
            matrix_size: self.config.matrix_size,
            buffer_size: self.config.buffer_size,
            time_limit_seconds: self.config.time_limit_seconds,
            token_alphabet: copy_tokens(&self.config.token_alphabet),
            seed: self.config.seed,
        };
        let state = BreachState {
            matrix: copy_grid(&self.state.matrix),
            sequences: copy_grid(&self.state.sequences),
            sequence_values: copy_items(&self.state.sequence_values),
            buffer_tokens: copy_tokens(&self.state.buffer_tokens),
            selected_cells: copy_items(&self.state.selected_cells),
            current_constraint: self.state.current_constraint,
            current_index: self.state.current_index,
            uploaded_results: copy_items(&self.state.uploaded_results),
            terminal_reason: self.state.terminal_reason,
        };
        let copy = GameEngine { config, state };
        assert(copy@ =~= self@);
        copy
    }
}

} // verus!
