//! Puzzle generation: sequence lengths, random matrices and planted paths,
//! daemon windows cut from a planted path, decoys, and the acceptance rules
//! for a generated puzzle.

use vstd::prelude::*;
use rand::rngs::StdRng;
use rand::seq::SliceRandom;
use rand::{Rng, SeedableRng};
use crate::engine::{
    BreachConfig, Cell, EngineView, GameEngine, GameError, Token, appears_in, cell_selected, config_problem,
    copy_grid, copy_items, copy_tokens, free_cells_in_line, grid_views, on_line, opening_view, run_matches, token_views,
    window_matches,
};
use crate::laws::{path_tokens, play};
use crate::solver::{SearchReport, SolverOptions, spec_min_option, values_sum, values_total};
use crate::laws::follows_pick_rules;
use crate::text::{decimal_text, usize_text};

verus! {

/// A matrix of tokens, row by row.
pub type Matrix = Vec<Vec<Token>>;

/// The daemon sequences.
pub type Sequences = Vec<Vec<Token>>;

/// The value of each daemon sequence.
pub type SequenceValues = Vec<u32>;

/// A puzzle: its matrix, daemons and their values.
pub type GameData = (Matrix, Sequences, SequenceValues);

/// A puzzle and the path that was planted in it.
pub type GameDataWithPath = (Matrix, Sequences, SequenceValues, Vec<Cell>);

/// What to generate: the configuration, the daemon count, whether every
/// daemon must be uploadable in one run, the solver's limits, how many tries,
/// and whether a puzzle whose rating the node cap cut short may be kept.
#[derive(Clone, Debug)]
pub struct PuzzleSpec {
    pub config: BreachConfig,
    pub num_sequences: usize,
    pub require_all_sequences: bool,
    pub solver_options: SolverOptions,
    pub max_attempts: usize,
    pub allow_uncertain_difficulty: bool,
}

impl PuzzleSpec {
    /// A request for `num_sequences` daemons, all uploadable in one run, with the
    /// default solver limits, 300 tries, and no puzzle of uncertain rating.
    pub fn new(config: BreachConfig, num_sequences: usize) -> (spec: Self)
        ensures
            spec.config == config,
            spec.num_sequences == num_sequences,
            spec.require_all_sequences,
            spec.solver_options.node_limit == 200_000,
            spec.solver_options.solution_cap == 1_000,
            spec.max_attempts == 300,
            !spec.allow_uncertain_difficulty,
    {
        PuzzleSpec {
            config,
            num_sequences,
            require_all_sequences: true,
            solver_options: SolverOptions::default(),
            max_attempts: 300,
            allow_uncertain_difficulty: false,
        }
    }

    /// The same request with other solver limits.
    pub fn with_solver_options(self, solver_options: SolverOptions) -> (spec: Self)
        ensures
            spec == (PuzzleSpec { solver_options, ..self }),
    {
        let mut spec = self;
        spec.solver_options = solver_options;
        spec
    }

    /// The same request with `max_attempts` tries (at least one).
    pub fn with_attempt_budget(self, max_attempts: usize) -> (spec: Self)
        ensures
            spec == (PuzzleSpec { max_attempts: if max_attempts < 1 { 1 } else { max_attempts }, ..self }),
    {
        let mut spec = self;
        spec.max_attempts = if max_attempts < 1 { 1 } else { max_attempts };
        spec
    }

    /// The same request, keeping or refusing puzzles whose rating is uncertain.
    pub fn allow_uncertain_difficulty(self, allow: bool) -> (spec: Self)
        ensures
            spec == (PuzzleSpec { allow_uncertain_difficulty: allow, ..self }),
    {
        let mut spec = self;
        spec.allow_uncertain_difficulty = allow;
        spec
    }
}

/// The daemon lengths used for `num_sequences` daemons before the buffer cap.
pub open spec fn base_sequence_lengths(num_sequences: int) -> Seq<usize> {
    if num_sequences == 1 {
        seq![2usize]
    } else if num_sequences == 2 {
        seq![2usize, 2]
    } else if num_sequences == 3 {
        seq![2usize, 2, 3]
    } else if num_sequences == 4 {
        seq![2usize, 3, 3, 4]
    } else {
        seq![3usize, 3, 4, 4, 5]
    }
}

/// At most `num_sequences` of the base lengths, each capped at the buffer size (at least 1).
pub open spec fn sequence_lengths(num_sequences: int, buffer_size: int) -> Seq<usize> {
    let base = base_sequence_lengths(num_sequences);
    let cap = if buffer_size < 1 { 1 } else { buffer_size };
    let count = if num_sequences < base.len() { num_sequences } else { base.len() as int };
    base.take(count).map_values(|len: usize| if len <= cap { len } else { cap as usize })
}

/// There are at most five daemon lengths, each from 1 to 5 (from 2 where the buffer allows).
pub proof fn lemma_lengths_small(num: int, buffer_size: int)
    requires
        0 <= num,
    ensures
        sequence_lengths(num, buffer_size).len() <= 5,
        sequence_lengths(num, buffer_size).len() == (if num < 5 && num != 0 { num } else if num == 0 { 0 } else { 5 }),
        forall|i: int| 0 <= i < sequence_lengths(num, buffer_size).len() ==>
            1 <= #[trigger] sequence_lengths(num, buffer_size)[i] <= 5,
        buffer_size >= 5 ==> forall|i: int| 0 <= i < sequence_lengths(num, buffer_size).len() ==>
            2 <= #[trigger] sequence_lengths(num, buffer_size)[i],
{
    let base = base_sequence_lengths(num);
    assert(base.len() <= 5);
    assert(forall|i: int| 0 <= i < base.len() ==> 2 <= #[trigger] base[i] <= 5);
    let cap = if buffer_size < 1 { 1 } else { buffer_size };
    let count = if num < base.len() { num } else { base.len() as int };
    let taken = base.take(count);
    let lengths = sequence_lengths(num, buffer_size);
    assert(lengths == taken.map_values(|len: usize| if len <= cap { len } else { cap as usize }));
    assert(lengths.len() == taken.len());
    assert forall|i: int| 0 <= i < lengths.len() implies 1 <= #[trigger] lengths[i] <= 5
        && (buffer_size >= 5 ==> 2 <= lengths[i]) by {
        assert(taken[i] == base[i]);
    }
}

/// The daemon lengths for `num_sequences` daemons in a buffer of `buffer_size`.
pub fn sequence_lengths_for(num_sequences: usize, buffer_size: usize) -> (lengths: Vec<usize>)
    ensures
        lengths@ == sequence_lengths(num_sequences as int, buffer_size as int),
{
    let base: Vec<usize> = match num_sequences {
        1 => vec![2],
        2 => vec![2, 2],
        3 => vec![2, 2, 3],
        4 => vec![2, 3, 3, 4],
        _ => vec![3, 3, 4, 4, 5],
    };
    assert(base@ =~= base_sequence_lengths(num_sequences as int));
    let cap = if buffer_size < 1 { 1 } else { buffer_size };
    let count = if num_sequences < base.len() { num_sequences } else { base.len() };
    let mut lengths: Vec<usize> = Vec::new();
    let mut i: usize = 0;
    while i < count
        invariant
            i <= count,
            count <= base@.len(),
            cap == (if buffer_size < 1 { 1 } else { buffer_size }),
            lengths@ == base@.take(i as int).map_values(|len: usize| if len <= cap { len } else { cap }),
        decreases count - i,
    {
        let len = base[i];
        lengths.push(if len <= cap { len } else { cap });
        i += 1;
        assert(lengths@ =~= base@.take(i as int).map_values(|len: usize| if len <= cap { len } else { cap }));
    }
    lengths
}

#[verifier::external_type_specification]
#[verifier::external_body]
pub struct ExStdRng(StdRng);

/// `StdRng::seed_from_u64`: a generator seeded from `seed`; nothing is stated of what it yields.
#[verifier::external_body]
fn rng_from_seed(seed: u64) -> StdRng {
    StdRng::seed_from_u64(seed)
}

/// `StdRng::from_entropy`: a generator seeded by the operating system.
#[verifier::external_body]
fn rng_from_entropy() -> StdRng {
    StdRng::from_entropy()
}

/// `Rng::gen_range` on `low..=high`: some value of that range (the source panics
/// on an empty range, which `requires` leaves out). The half-open `low..high`
/// that the generator also draws from is the same draw as `low..=high - 1`
/// in rand's uniform sampler.
#[verifier::external_body]
fn random_in(rng: &mut StdRng, low: usize, high: usize) -> (value: usize)
    requires
        low <= high,
    ensures
        low <= value <= high,
{
    rng.gen_range(low..=high)
}

/// `SliceRandom::choose`: `None` for an empty slice, else one of its items.
#[verifier::external_body]
fn random_item<'a, T>(items: &'a [T], rng: &mut StdRng) -> (item: Option<&'a T>)
    ensures
        items@.len() == 0 <==> item is None,
        item matches Some(x) ==> exists|i: int| 0 <= i < items@.len() && items@[i] == *x,
{
    items.choose(rng)
}

/// A generator seeded from `seed`, or by the operating system where there is none.
pub fn seeded_rng(seed: Option<u64>) -> StdRng {
    match seed {
        Some(value) => rng_from_seed(value),
        None => rng_from_entropy(),
    }
}

/// The seed of attempt number `attempt` of a seeded generation: the seed
/// plus the attempt's number, wrapping around at 64 bits.
pub fn attempt_seed(seed: u64, attempt: usize) -> (r: u64)
    ensures
        r as int == (seed as int + attempt as int) % 0x1_0000_0000_0000_0000,
{
    seed.wrapping_add(attempt as u64)
}

/// What a generation request is refused for, in the order of the checks, with its message.
pub open spec fn generation_problem(config: BreachConfig, num_sequences: int) -> Option<Seq<char>> {
    if config.matrix_size == 0 {
        Some("Matrix size must be greater than zero"@)
    } else if config.buffer_size == 0 {
        Some("Buffer size must be greater than zero"@)
    } else if config.token_alphabet@.len() == 0 {
        Some("Token alphabet cannot be empty"@)
    } else if num_sequences == 0 {
        Some("At least one sequence is required"@)
    } else if num_sequences > 64 {
        Some("At most "@ + decimal_text(64) + " sequences can be analyzed"@)
    } else {
        None
    }
}

/// The error carries `message`.
pub open spec fn config_error_says(e: GameError, message: Option<Seq<char>>) -> bool {
    match e {
        GameError::InvalidConfig(text) => message == Some(text@),
        GameError::InvalidMove(_) => false,
    }
}

/// Refuses an empty matrix or buffer, an empty alphabet, and a daemon count
/// outside `1..=64` (the solver tracks uploads in 64 bits).
pub fn validate_generation_request(config: &BreachConfig, num_sequences: usize) -> (r: Result<(), GameError>)
    ensures
        r is Ok <==> generation_problem(*config, num_sequences as int) is None,
        r matches Err(e) ==> config_error_says(e, generation_problem(*config, num_sequences as int)),
{
    if config.matrix_size == 0 {
        return Err(GameError::InvalidConfig(String::from_str("Matrix size must be greater than zero")));
    }
    if config.buffer_size == 0 {
        return Err(GameError::InvalidConfig(String::from_str("Buffer size must be greater than zero")));
    }
    if config.token_alphabet.len() == 0 {
        return Err(GameError::InvalidConfig(String::from_str("Token alphabet cannot be empty")));
    }
    if num_sequences == 0 {
        return Err(GameError::InvalidConfig(String::from_str("At least one sequence is required")));
    }
    if num_sequences > 64 {
        let mut text = String::from_str("At most ");
        text.append(usize_text(64).as_str());
        text.append(" sequences can be analyzed");
        return Err(GameError::InvalidConfig(text));
    }
    Ok(())
}

/// Every cell of `path` lies inside an `n` by `n` matrix.
pub open spec fn cells_inside(path: Seq<Cell>, n: int) -> bool {
    forall|i: int| 0 <= i < path.len() ==> (#[trigger] path[i]).0 < n && path[i].1 < n
}

/// `cell` may extend the walk `path` on an `n` by `n` matrix: it was not
/// walked yet and lies on the line that the rules call for, the last cell's
/// column after an odd number of cells, else its row.
pub open spec fn walk_may_take(path: Seq<Cell>, n: int, cell: Cell) -> bool {
    &&& !path.contains(cell)
    &&& if path.len() % 2 == 1 {
        on_line(cell, n, path.last().1 as int, false)
    } else {
        on_line(cell, n, path.last().0 as int, true)
    }
}

/// Extends a walk by one random cell of the line that the rules call for
/// (the last cell's column after an odd number of picks, else its row), or
/// leaves it as it is and says so where that line has no free cell.
fn extend_walk(path: &mut Vec<Cell>, matrix_size: usize, rng: &mut StdRng) -> (extended: bool)
    requires
        old(path)@.len() >= 1,
        follows_pick_rules(old(path)@),
        cells_inside(old(path)@, matrix_size as int),
    ensures
        follows_pick_rules(final(path)@),
        cells_inside(final(path)@, matrix_size as int),
        extended == exists|cell: Cell| walk_may_take(old(path)@, matrix_size as int, cell),
        extended ==> final(path)@ == old(path)@.push(final(path)@.last())
            && walk_may_take(old(path)@, matrix_size as int, final(path)@.last()),
        !extended ==> final(path)@ == old(path)@,
{
    let current = path[path.len() - 1];
    let column_constraint = path.len() % 2 == 1;
    let available = if column_constraint {
        free_cells_in_line(path, matrix_size, current.1, false)
    } else {
        free_cells_in_line(path, matrix_size, current.0, true)
    };
    if available.len() == 0 {
        proof {
            assert forall|cell: Cell| !walk_may_take(path@, matrix_size as int, cell) by {
                if walk_may_take(path@, matrix_size as int, cell) {
                    assert(available@.contains(cell));
                }
            }
        }
        return false;
    }
    let chosen = random_item(available.as_slice(), rng);
    let next = *chosen.unwrap();
    proof {
        let k = choose|k: int| 0 <= k < available@.len() && available@[k] == next;
        assert(available@[k] == next);
        assert(available@.contains(next));
        assert(walk_may_take(path@, matrix_size as int, next));
        crate::laws::lemma_push_keeps_rules(path@, next);
    }
    let ghost before = path@;
    path.push(next);
    assert(path@.drop_last() =~= before);
    assert(path@ =~= before.push(path@.last()));
    assert forall|i: int| 0 <= i < path@.len() implies (#[trigger] path@[i]).0 < matrix_size && path@[i].1 < matrix_size by {
        if i < before.len() {
            assert(path@[i] == before[i]);
        }
    }
    true
}

/// One random walk by the pick rules from a random top-row cell, at most
/// `path_length` long, stopping early where the line has no free cell.
fn random_walk(matrix_size: usize, path_length: usize, rng: &mut StdRng) -> (path: Vec<Cell>)
    requires
        matrix_size > 0,
        path_length > 0,
    ensures
        follows_pick_rules(path@),
        cells_inside(path@, matrix_size as int),
        1 <= path@.len() <= path_length,
        path@.len() < path_length ==> forall|c: Cell| !walk_may_take(path@, matrix_size as int, c),
{
    let mut path: Vec<Cell> = Vec::new();
    let start_col = random_in(rng, 0, matrix_size - 1);
    path.push((0, start_col));
    let mut step: usize = 1;
    while step < path_length
        invariant_except_break
            path@.len() == step,
        invariant
            1 <= path@.len() <= step,
            step <= path_length,
            follows_pick_rules(path@),
            cells_inside(path@, matrix_size as int),
        ensures
            path@.len() < path_length ==> forall|c: Cell| !walk_may_take(path@, matrix_size as int, c),
        decreases path_length - step,
    {
        if !extend_walk(&mut path, matrix_size, rng) {
            break;
        }
        step += 1;
    }
    path
}

/// A path of up to `path_length` cells that follows the pick rules: the first
/// walk that reaches that length among 300 tries, else the longest walk.
pub fn generate_valid_path(matrix_size: usize, path_length: usize, rng: &mut StdRng) -> (path: Vec<Cell>)
    ensures
        follows_pick_rules(path@),
        cells_inside(path@, matrix_size as int),
        path@.len() <= path_length,
        matrix_size > 0 && path_length > 0 ==> path@.len() >= 1,
        path@.len() < path_length ==> forall|c: Cell| !walk_may_take(path@, matrix_size as int, c),
{
    let mut best_path: Vec<Cell> = Vec::new();
    if matrix_size == 0 || path_length == 0 {
        return best_path;
    }
    let mut attempt: usize = 0;
    while attempt < 300
        invariant
            attempt <= 300,
            matrix_size > 0,
            path_length > 0,
            follows_pick_rules(best_path@),
            cells_inside(best_path@, matrix_size as int),
            best_path@.len() <= path_length,
            attempt > 0 ==> best_path@.len() >= 1,
            attempt == 0 ==> best_path@.len() == 0,
            attempt > 0 ==> forall|c: Cell| !walk_may_take(best_path@, matrix_size as int, c),
        decreases 300 - attempt,
    {
        let path = random_walk(matrix_size, path_length, rng);
        if path.len() == path_length {
            return path;
        }
        if path.len() > best_path.len() {
            best_path = path;
        }
        attempt += 1;
    }
    best_path
}

/// Every token of `tokens` is one of `pool`.
pub open spec fn drawn_from(tokens: Seq<Seq<char>>, pool: Seq<Seq<char>>) -> bool {
    forall|i: int| 0 <= i < tokens.len() ==> pool.contains(#[trigger] tokens[i])
}

/// A random token of `pool`.
fn random_token(pool: &Vec<Token>, rng: &mut StdRng) -> (token: Token)
    requires
        pool@.len() > 0,
    ensures
        token_views(pool@).contains(token@),
{
    let chosen = random_item(pool.as_slice(), rng);
    let token = chosen.unwrap().clone();
    proof {
        let k = choose|k: int| 0 <= k < pool@.len() && pool@[k] == token;
        assert(token_views(pool@)[k] == token@);
    }
    token
}

/// `len` random tokens of `pool`.
fn random_tokens(pool: &Vec<Token>, len: usize, rng: &mut StdRng) -> (tokens: Vec<Token>)
    requires
        pool@.len() > 0,
    ensures
        tokens@.len() == len,
        drawn_from(token_views(tokens@), token_views(pool@)),
{
    let mut tokens: Vec<Token> = Vec::new();
    let mut i: usize = 0;
    while i < len
        invariant
            i <= len,
            pool@.len() > 0,
            tokens@.len() == i,
            drawn_from(token_views(tokens@), token_views(pool@)),
        decreases len - i,
    {
        let token = random_token(pool, rng);
        let ghost before = token_views(tokens@);
        tokens.push(token);
        i += 1;
        assert(token_views(tokens@) =~= before.push(token@));
    }
    tokens
}

/// A random `matrix_size` by `matrix_size` matrix of tokens of the alphabet,
/// once the request passes the checks for one daemon.
pub fn generate_matrix(config: &BreachConfig, rng: &mut StdRng) -> (r: Result<Vec<Vec<Token>>, GameError>)
    ensures
        r is Ok <==> generation_problem(*config, 1) is None,
        r matches Err(e) ==> config_error_says(e, generation_problem(*config, 1)),
        r matches Ok(matrix) ==> {
            &&& matrix@.len() == config.matrix_size
            &&& forall|row: int| 0 <= row < matrix@.len() ==> {
                &&& (#[trigger] matrix@[row])@.len() == config.matrix_size
                &&& drawn_from(token_views(matrix@[row]@), token_views(config.token_alphabet@))
            }
        },
{
    match validate_generation_request(config, 1) {
        Ok(()) => {},
        Err(e) => {
            return Err(e);
        },
    }
    let n = config.matrix_size;
    let mut matrix: Vec<Vec<Token>> = Vec::new();
    let mut r: usize = 0;
    while r < n
        invariant
            r <= n,
            n == config.matrix_size,
            config.token_alphabet@.len() > 0,
            matrix@.len() == r,
            forall|row: int| 0 <= row < matrix@.len() ==> {
                &&& (#[trigger] matrix@[row])@.len() == n
                &&& drawn_from(token_views(matrix@[row]@), token_views(config.token_alphabet@))
            },
        decreases n - r,
    {
        let row = random_tokens(&config.token_alphabet, n, rng);
        matrix.push(row);
        r += 1;
    }
    Ok(matrix)
}

/// `len` random tokens of the alphabet: the buffer that a planted path will spell.
pub fn generate_path_tokens(alphabet: &Vec<Token>, len: usize, rng: &mut StdRng) -> (tokens: Vec<Token>)
    requires
        alphabet@.len() > 0,
    ensures
        tokens@.len() == len,
        drawn_from(token_views(tokens@), token_views(alphabet@)),
{
    random_tokens(alphabet, len, rng)
}

/// All tokens of a matrix, row after row.
pub open spec fn grid_tokens(rows: Seq<Seq<Seq<char>>>) -> Seq<Seq<char>>
    decreases rows.len(),
{
    if rows.len() == 0 {
        Seq::empty()
    } else {
        grid_tokens(rows.drop_last()) + rows.last()
    }
}

/// All tokens of a matrix, row after row.
fn flatten_tokens(rows: &Vec<Vec<Token>>) -> (tokens: Vec<Token>)
    ensures
        token_views(tokens@) == grid_tokens(grid_views(rows@)),
{
    let mut tokens: Vec<Token> = Vec::new();
    let mut r: usize = 0;
    while r < rows.len()
        invariant
            r <= rows@.len(),
            token_views(tokens@) == grid_tokens(grid_views(rows@).take(r as int)),
        decreases rows@.len() - r,
    {
        let ghost before = token_views(tokens@);
        let mut c: usize = 0;
        while c < rows[r].len()
            invariant
                r < rows@.len(),
                c <= rows@[r as int]@.len(),
                token_views(tokens@) == before + token_views(rows@[r as int]@).take(c as int),
            decreases rows@[r as int]@.len() - c,
        {
            let token = rows[r][c].clone();
            let ghost prior = token_views(tokens@);
            tokens.push(token);
            assert(token_views(tokens@) =~= prior.push(token@));
            assert(token_views(rows@[r as int]@).take(c + 1) =~= token_views(rows@[r as int]@).take(c as int).push(token@));
            c += 1;
            assert(token_views(tokens@) =~= before + token_views(rows@[r as int]@).take(c as int));
        }
        assert(token_views(rows@[r as int]@).take(c as int) =~= token_views(rows@[r as int]@));
        assert(grid_views(rows@).take(r + 1).drop_last() =~= grid_views(rows@).take(r as int));
        r += 1;
    }
    assert(grid_views(rows@).take(r as int) =~= grid_views(rows@));
    tokens
}

/// What `generate_sequences` refuses, with its message.
pub open spec fn sequence_problem(config: BreachConfig, matrix: Seq<Seq<Seq<char>>>, num_sequences: int) -> Option<Seq<char>> {
    if generation_problem(config, num_sequences) is Some {
        generation_problem(config, num_sequences)
    } else if grid_tokens(matrix).len() == 0 {
        Some("Matrix must contain tokens to build sequences"@)
    } else {
        None
    }
}

/// Random daemon sequences of the lengths for `num_sequences` daemons, made of
/// tokens of the matrix, each worth ten points per token.
pub fn generate_sequences(
    config: &BreachConfig,
    matrix: &Vec<Vec<Token>>,
    num_sequences: usize,
    rng: &mut StdRng,
) -> (r: Result<(Vec<Vec<Token>>, Vec<u32>), GameError>)
    ensures
        r is Ok <==> sequence_problem(*config, grid_views(matrix@), num_sequences as int) is None,
        r matches Err(e) ==> config_error_says(e, sequence_problem(*config, grid_views(matrix@), num_sequences as int)),
        r matches Ok(made) ==> {
            let lengths = sequence_lengths(num_sequences as int, config.buffer_size as int);
            &&& made.0@.len() == lengths.len()
            &&& made.1@.len() == lengths.len()
            &&& forall|i: int| 0 <= i < lengths.len() ==> {
                &&& (#[trigger] made.0@[i])@.len() == lengths[i]
                &&& drawn_from(token_views(made.0@[i]@), grid_tokens(grid_views(matrix@)))
            }
            &&& forall|i: int| 0 <= i < lengths.len() ==> #[trigger] made.1@[i] == lengths[i] * 10
        },
{
    match validate_generation_request(config, num_sequences) {
        Ok(()) => {},
        Err(e) => {
            return Err(e);
        },
    }
    let all_tokens = flatten_tokens(matrix);
    if all_tokens.len() == 0 {
        return Err(GameError::InvalidConfig(String::from_str("Matrix must contain tokens to build sequences")));
    }
    let lengths = sequence_lengths_for(num_sequences, config.buffer_size);
    proof {
        lemma_lengths_small(num_sequences as int, config.buffer_size as int);
    }
    let mut sequences: Vec<Vec<Token>> = Vec::new();
    let mut values: Vec<u32> = Vec::new();
    let mut i: usize = 0;
    while i < lengths.len()
        invariant
            i <= lengths@.len(),
            all_tokens@.len() > 0,
            lengths@ == sequence_lengths(num_sequences as int, config.buffer_size as int),
            forall|j: int| 0 <= j < lengths@.len() ==> 1 <= #[trigger] lengths@[j] <= 5,
            token_views(all_tokens@) == grid_tokens(grid_views(matrix@)),
            sequences@.len() == i,
            values@.len() == i,
            forall|j: int| 0 <= j < i ==> {
                &&& (#[trigger] sequences@[j])@.len() == lengths@[j]
                &&& drawn_from(token_views(sequences@[j]@), grid_tokens(grid_views(matrix@)))
            },
            forall|j: int| 0 <= j < i ==> #[trigger] values@[j] == lengths@[j] * 10,
        decreases lengths@.len() - i,
    {
        let length = lengths[i];
        let sequence = random_tokens(&all_tokens, length, rng);
        values.push(length as u32 * 10);
        sequences.push(sequence);
        i += 1;
    }
    Ok((sequences, values))
}

/// Where window `idx` of `count` may start on a path with `max_start + 1`
/// possible starts: anywhere where there is one window or one start, else
/// within one of its even share `idx * max_start / (count - 1)`.
pub open spec fn window_start_allowed(idx: int, count: int, max_start: int, start: int) -> bool {
    &&& 0 <= start <= max_start
    &&& count > 1 && max_start > 0 ==> {
        let base = idx * max_start / (count - 1);
        base - 1 <= start <= base + 1
    }
}

/// A start and a length for each daemon, spread along a path of `path_len`
/// tokens; `None` where a length is 0 or longer than the path.
pub fn choose_sequence_windows(lengths: &Vec<usize>, path_len: usize, rng: &mut StdRng) -> (r: Option<Vec<(usize, usize)>>)
    requires
        lengths@.len() * path_len <= usize::MAX,
    ensures
        r is None <==> exists|i: int| 0 <= i < lengths@.len() && (#[trigger] lengths@[i] == 0 || lengths@[i] > path_len),
        r matches Some(windows) ==> {
            &&& windows@.len() == lengths@.len()
            &&& forall|i: int| 0 <= i < windows@.len() ==> {
                &&& (#[trigger] windows@[i]).1 == lengths@[i]
                &&& windows@[i].0 + windows@[i].1 <= path_len
                &&& window_start_allowed(i, lengths@.len() as int, path_len - lengths@[i], windows@[i].0 as int)
            }
        },
{
    let count = lengths.len();
    let mut k: usize = 0;
    while k < count
        invariant
            k <= count,
            count == lengths@.len(),
            forall|i: int| 0 <= i < k ==> !(#[trigger] lengths@[i] == 0 || lengths@[i] > path_len),
        decreases count - k,
    {
        if lengths[k] == 0 || lengths[k] > path_len {
            return None;
        }
        k += 1;
    }
    let mut windows: Vec<(usize, usize)> = Vec::new();
    let mut idx: usize = 0;
    while idx < count
        invariant
            idx <= count,
            count == lengths@.len(),
            count * path_len <= usize::MAX,
            forall|i: int| 0 <= i < count ==> !(#[trigger] lengths@[i] == 0 || lengths@[i] > path_len),
            windows@.len() == idx,
            forall|i: int| 0 <= i < idx ==> {
                &&& (#[trigger] windows@[i]).1 == lengths@[i]
                &&& windows@[i].0 + windows@[i].1 <= path_len
                &&& window_start_allowed(i, count as int, path_len - lengths@[i], windows@[i].0 as int)
            },
        decreases count - idx,
    {
        let length = lengths[idx];
        let max_start = path_len - length;
        let base = if count <= 1 || max_start == 0 {
            random_in(rng, 0, max_start)
        } else {
            proof {
                assert(idx * max_start <= count * path_len) by (nonlinear_arith)
                    requires
                        idx < count,
                        max_start <= path_len,
                ;
                assert(idx * max_start / (count - 1) <= max_start) by (nonlinear_arith)
                    requires
                        idx <= count - 1,
                        count > 1,
                ;
            }
            idx * max_start / (count - 1)
        };
        let jitter_min = if base >= 1 { base - 1 } else { 0 };
        let jitter_max = if base + 1 <= max_start { base + 1 } else { max_start };
        let start = random_in(rng, jitter_min, jitter_max);
        windows.push((start, length));
        idx += 1;
    }
    Some(windows)
}

/// Two token lists hold the same tokens in the same order.
fn tokens_equal(a: &Vec<Token>, b: &Vec<Token>) -> (r: bool)
    ensures
        r == (token_views(a@) == token_views(b@)),
{
    if a.len() != b.len() {
        return false;
    }
    let r = run_matches(a.as_slice(), b.as_slice(), 0, a.len());
    assert(token_views(a@).subrange(0, a@.len() as int) =~= token_views(a@));
    assert(token_views(b@).subrange(0, b@.len() as int) =~= token_views(b@));
    r
}

/// Some daemon sequence occurs twice.
pub open spec fn has_duplicate(sequences: Seq<Seq<Seq<char>>>) -> bool {
    exists|i: int, j: int| 0 <= i < j < sequences.len() && sequences[i] == sequences[j]
}

/// Whether some daemon sequence occurs twice.
pub fn has_duplicate_sequences(sequences: &Vec<Vec<Token>>) -> (r: bool)
    ensures
        r == has_duplicate(grid_views(sequences@)),
{
    let ghost g = grid_views(sequences@);
    let n = sequences.len();
    let mut j: usize = 0;
    while j < n
        invariant
            j <= n,
            n == sequences@.len(),
            g == grid_views(sequences@),
            forall|a: int, b: int| 0 <= a < b < j ==> g[a] != g[b],
        decreases n - j,
    {
        let mut i: usize = 0;
        while i < j
            invariant
                i <= j,
                j < n,
                n == sequences@.len(),
                g == grid_views(sequences@),
                forall|a: int, b: int| 0 <= a < b < j ==> g[a] != g[b],
                forall|a: int| 0 <= a < i ==> g[a] != g[j as int],
            decreases j - i,
        {
            if tokens_equal(&sequences[i], &sequences[j]) {
                assert(g[i as int] == g[j as int]);
                return true;
            }
            i += 1;
        }
        j += 1;
    }
    false
}

/// The cell `(row, col)` of `matrix` exists and is not on `path`.
pub open spec fn off_path(matrix: Seq<Seq<Seq<char>>>, path: Seq<Cell>, row: int, col: int) -> bool {
    &&& 0 <= row < matrix.len()
    &&& 0 <= col < matrix[row].len()
    &&& !path.contains((row as usize, col as usize))
}

/// Puts a random token of the daemon sequences on a random cell off the
/// planted path, so that the daemons' tokens also lie off it; says whether
/// there was such a cell and such a token.
pub fn place_meaningful_decoy(
    matrix: &mut Vec<Vec<Token>>,
    path: &Vec<Cell>,
    sequences: &Vec<Vec<Token>>,
    rng: &mut StdRng,
) -> (placed: bool)
    ensures
        placed == ((exists|row: int, col: int| off_path(grid_views(old(matrix)@), path@, row, col))
            && grid_tokens(grid_views(sequences@)).len() > 0),
        placed ==> exists|row: int, col: int, token: Seq<char>| {
            &&& off_path(grid_views(old(matrix)@), path@, row, col)
            &&& grid_tokens(grid_views(sequences@)).contains(token)
            &&& grid_views(final(matrix)@) == grid_views(old(matrix)@).update(row, grid_views(old(matrix)@)[row].update(col, token))
        },
        !placed ==> final(matrix)@ == old(matrix)@,
{
    let ghost g = grid_views(matrix@);
    let mut off: Vec<Cell> = Vec::new();
    let mut row: usize = 0;
    while row < matrix.len()
        invariant
            row <= matrix@.len(),
            g == grid_views(matrix@),
            forall|k: int| 0 <= k < off@.len() ==> off_path(g, path@, (#[trigger] off@[k]).0 as int, off@[k].1 as int),
            forall|r: int, c: int| 0 <= r < row && off_path(g, path@, r, c) ==> off@.contains((r as usize, c as usize)),
        decreases matrix@.len() - row,
    {
        let mut col: usize = 0;
        while col < matrix[row].len()
            invariant
                row < matrix@.len(),
                col <= matrix@[row as int]@.len(),
                g == grid_views(matrix@),
                forall|k: int| 0 <= k < off@.len() ==> off_path(g, path@, (#[trigger] off@[k]).0 as int, off@[k].1 as int),
                forall|r: int, c: int| 0 <= r < row && off_path(g, path@, r, c) ==> off@.contains((r as usize, c as usize)),
                forall|c: int| 0 <= c < col && off_path(g, path@, row as int, c) ==> off@.contains((row, c as usize)),
            decreases matrix@[row as int]@.len() - col,
        {
            if !cell_selected(path, (row, col)) {
                let ghost before = off@;
                off.push((row, col));
                assert(off@[before.len() as int] == (row, col));
                assert forall|r: int, c: int| 0 <= r < row && off_path(g, path@, r, c) implies off@.contains((r as usize, c as usize)) by {
                    let k = choose|k: int| 0 <= k < before.len() && before[k] == (r as usize, c as usize);
                    assert(off@[k] == before[k]);
                }
                assert forall|c: int| 0 <= c < col && off_path(g, path@, row as int, c) implies off@.contains((row, c as usize)) by {
                    let k = choose|k: int| 0 <= k < before.len() && before[k] == (row, c as usize);
                    assert(off@[k] == before[k]);
                }
            }
            col += 1;
        }
        row += 1;
    }
    let sequence_tokens = flatten_tokens(sequences);
    let cell = match random_item(off.as_slice(), rng) {
        Some(cell) => *cell,
        None => {
            assert forall|r: int, c: int| !off_path(g, path@, r, c) by {
                if off_path(g, path@, r, c) {
                    assert(off@.contains((r as usize, c as usize)));
                }
            }
            return false;
        },
    };
    proof {
        let k = choose|k: int| 0 <= k < off@.len() && off@[k] == cell;
        assert(off_path(g, path@, off@[k].0 as int, off@[k].1 as int));
    }
    let token = match random_item(sequence_tokens.as_slice(), rng) {
        Some(token) => token.clone(),
        None => {
            return false;
        },
    };
    proof {
        let k = choose|k: int| 0 <= k < sequence_tokens@.len() && sequence_tokens@[k] == token;
        assert(token_views(sequence_tokens@)[k] == token@);
    }
    let (r, c) = cell;
    let ghost old_rows = matrix@;
    let mut new_row = crate::engine::copy_tokens(&matrix[r]);
    new_row.set(c, token);
    assert(token_views(new_row@) =~= g[r as int].update(c as int, token@));
    matrix.set(r, new_row);
    assert forall|k: int| 0 <= k < g.len() implies #[trigger] grid_views(matrix@)[k]
        == g.update(r as int, g[r as int].update(c as int, token@))[k] by {
        if k != r {
            assert(matrix@[k] == old_rows[k]);
        }
    }
    assert(grid_views(matrix@) =~= g.update(r as int, g[r as int].update(c as int, token@)));
    true
}

/// The longest of a list of lengths, 0 for none.
pub open spec fn longest_length(lengths: Seq<usize>) -> int
    decreases lengths.len(),
{
    if lengths.len() == 0 {
        0
    } else if lengths.last() > longest_length(lengths.drop_last()) {
        lengths.last() as int
    } else {
        longest_length(lengths.drop_last())
    }
}

/// How long a planted path may be: the buffer size, but short of filling the
/// matrix (1 for a matrix of one cell).
pub open spec fn path_length_cap(matrix_size: int, buffer_size: int) -> int {
    let cells = matrix_size * matrix_size;
    if cells > 1 {
        if buffer_size <= cells - 1 { buffer_size } else { cells - 1 }
    } else {
        1
    }
}

/// What a generation plan is refused for, with its message.
pub open spec fn plan_problem(config: BreachConfig, num_sequences: int) -> Option<Seq<char>> {
    let lengths = sequence_lengths(num_sequences, config.buffer_size as int);
    let longest = longest_length(lengths);
    let cap = path_length_cap(config.matrix_size as int, config.buffer_size as int);
    if generation_problem(config, num_sequences) is Some {
        generation_problem(config, num_sequences)
    } else if longest > cap {
        Some("Longest sequence length "@ + decimal_text(longest as nat) + " does not fit available path length "@
            + decimal_text(cap as nat))
    } else {
        None
    }
}

/// The daemon lengths and the planted path length for a request, once the
/// request passes the checks and its longest daemon fits on a path.
pub fn plan_generation(config: &BreachConfig, num_sequences: usize) -> (r: Result<(Vec<usize>, usize), GameError>)
    requires
        config.matrix_size * config.matrix_size <= usize::MAX,
    ensures
        r is Ok <==> plan_problem(*config, num_sequences as int) is None,
        r matches Err(e) ==> config_error_says(e, plan_problem(*config, num_sequences as int)),
        r matches Ok(plan) ==> {
            &&& plan.0@ == sequence_lengths(num_sequences as int, config.buffer_size as int)
            &&& plan.1 == path_length_cap(config.matrix_size as int, config.buffer_size as int)
            &&& longest_length(plan.0@) <= plan.1
        },
{
    match validate_generation_request(config, num_sequences) {
        Ok(()) => {},
        Err(e) => {
            return Err(e);
        },
    }
    let lengths = sequence_lengths_for(num_sequences, config.buffer_size);
    let mut longest: usize = 0;
    let mut i: usize = 0;
    while i < lengths.len()
        invariant
            i <= lengths@.len(),
            longest == longest_length(lengths@.take(i as int)),
        decreases lengths@.len() - i,
    {
        assert(lengths@.take(i + 1).drop_last() =~= lengths@.take(i as int));
        if lengths[i] > longest {
            longest = lengths[i];
        }
        i += 1;
    }
    assert(lengths@.take(i as int) =~= lengths@);
    let cells = config.matrix_size * config.matrix_size;
    let max_path_len = if cells > 1 {
        if config.buffer_size <= cells - 1 { config.buffer_size } else { cells - 1 }
    } else {
        1
    };
    if longest > max_path_len {
        let mut text = String::from_str("Longest sequence length ");
        text.append(usize_text(longest).as_str());
        text.append(" does not fit available path length ");
        text.append(usize_text(max_path_len).as_str());
        return Err(GameError::InvalidConfig(text));
    }
    Ok((lengths, max_path_len))
}

/// A candidate puzzle: a matrix with a planted path and daemons cut from the
/// buffer that the path spells.
#[derive(Clone, Debug)]
pub struct Candidate {
    pub matrix: Matrix,
    pub sequences: Sequences,
    pub values: SequenceValues,
    pub path: Vec<Cell>,
}

/// Writes `token` into cell `(row, col)`.
fn set_cell(matrix: &mut Vec<Vec<Token>>, row: usize, col: usize, token: Token)
    requires
        row < old(matrix)@.len(),
        col < old(matrix)@[row as int]@.len(),
    ensures
        final(matrix)@.len() == old(matrix)@.len(),
        forall|r: int| 0 <= r < old(matrix)@.len() ==> (#[trigger] final(matrix)@[r])@.len() == old(matrix)@[r]@.len(),
        grid_views(final(matrix)@) == grid_views(old(matrix)@).update(row as int,
            grid_views(old(matrix)@)[row as int].update(col as int, token@)),
{
    let ghost g = grid_views(matrix@);
    let ghost old_rows = matrix@;
    let mut new_row = copy_tokens(&matrix[row]);
    new_row.set(col, token);
    assert(token_views(new_row@) =~= g[row as int].update(col as int, token@));
    matrix.set(row, new_row);
    assert forall|k: int| 0 <= k < g.len() implies #[trigger] grid_views(matrix@)[k]
        == g.update(row as int, g[row as int].update(col as int, token@))[k] by {
        if k != row {
            assert(matrix@[k] == old_rows[k]);
        }
    }
    assert(grid_views(matrix@) =~= g.update(row as int, g[row as int].update(col as int, token@)));
}

/// The tokens of `tokens` from `start`, `len` of them.
fn copy_run(tokens: &Vec<Token>, start: usize, len: usize) -> (run: Vec<Token>)
    requires
        start + len <= tokens@.len(),
    ensures
        token_views(run@) == token_views(tokens@).subrange(start as int, start + len),
{
    let mut run: Vec<Token> = Vec::new();
    let total = tokens.len();
    let mut i: usize = 0;
    while i < len
        invariant
            i <= len,
            total == tokens@.len(),
            start + len <= tokens@.len(),
            token_views(run@) == token_views(tokens@).subrange(start as int, start + i),
        decreases len - i,
    {
        let token = tokens[start + i].clone();
        let ghost before = token_views(run@);
        run.push(token);
        assert(token_views(run@) =~= before.push(token@));
        assert(token_views(tokens@).subrange(start as int, start + i + 1)
            =~= token_views(tokens@).subrange(start as int, start + i).push(token@));
        i += 1;
    }
    run
}

/// What a candidate guarantees: an `n` by `n` matrix of tokens of `alphabet`, whose planted path follows
/// the pick rules, spells a buffer in which every daemon appears, and daemons
/// that are all different and worth ten points per token.
pub open spec fn candidate_ok(c: Candidate, n: int, lengths: Seq<usize>, target: int, alphabet: Seq<Seq<char>>) -> bool {
    let g = grid_views(c.matrix@);
    &&& c.matrix@.len() == n
    &&& forall|r: int| 0 <= r < n ==> (#[trigger] c.matrix@[r])@.len() == n
    &&& forall|r: int| 0 <= r < n ==> drawn_from(#[trigger] g[r], alphabet)
    &&& crate::laws::follows_pick_rules(c.path@)
    &&& cells_inside(c.path@, n)
    &&& c.path@.len() == target
    &&& c.sequences@.len() == lengths.len()
    &&& c.values@.len() == lengths.len()
    &&& forall|i: int| 0 <= i < lengths.len() ==> {
        &&& (#[trigger] grid_views(c.sequences@)[i]).len() == lengths[i]
        &&& appears_in(path_tokens(g, c.path@), grid_views(c.sequences@)[i])
        &&& c.values@[i] == lengths[i] * 10
    }
    &&& !has_duplicate(grid_views(c.sequences@))
}

/// A token of the rows, row after row, is a token of one of the rows.
proof fn lemma_grid_token_in_row(rows: Seq<Seq<Seq<char>>>, token: Seq<char>)
    requires
        grid_tokens(rows).contains(token),
    ensures
        exists|r: int| 0 <= r < rows.len() && (#[trigger] rows[r]).contains(token),
    decreases rows.len(),
{
    let before = grid_tokens(rows.drop_last());
    let k = choose|k: int| 0 <= k < grid_tokens(rows).len() && grid_tokens(rows)[k] == token;
    if k < before.len() {
        assert(before[k] == token);
        lemma_grid_token_in_row(rows.drop_last(), token);
        let r = choose|r: int| 0 <= r < rows.drop_last().len() && (#[trigger] rows.drop_last()[r]).contains(token);
        assert(rows[r] == rows.drop_last()[r]);
    } else {
        assert(rows.last()[k - before.len()] == token);
        assert(rows[rows.len() - 1].contains(token));
    }
}

/// Some walk by the pick rules on an `n` by `n` matrix, shorter than
/// `target`, has no free cell on the line it must go on along.
pub open spec fn walk_can_stall(n: int, target: int) -> bool {
    exists|p: Seq<Cell>| {
        &&& #[trigger] crate::laws::follows_pick_rules(p)
        &&& cells_inside(p, n)
        &&& 1 <= p.len() < target
        &&& forall|c: Cell| !walk_may_take(p, n, c)
    }
}

/// The cell at `row`, `col` is among `cells`.
pub open spec fn holds_cell(cells: Seq<Cell>, row: int, col: int) -> bool {
    cells.contains((row as usize, col as usize))
}

/// Some walk by the pick rules of `target` cells covers every cell of an `n` by `n` matrix.
pub open spec fn walk_can_cover(n: int, target: int) -> bool {
    exists|p: Seq<Cell>| {
        &&& #[trigger] crate::laws::follows_pick_rules(p)
        &&& cells_inside(p, n)
        &&& p.len() == target
        &&& forall|row: int, col: int| 0 <= row < n && 0 <= col < n ==> #[trigger] holds_cell(p, row, col)
    }
}

/// The length of the planted path of a try: the path cap, or the longest daemon where longer.
pub open spec fn planted_length(max_path_len: int, lengths: Seq<usize>) -> int {
    if max_path_len >= longest_length(lengths) { max_path_len } else { longest_length(lengths) }
}

/// Each length is at most the longest one.
proof fn lemma_longest_length_bounds(lengths: Seq<usize>)
    ensures
        forall|i: int| 0 <= i < lengths.len() ==> #[trigger] lengths[i] <= longest_length(lengths),
    decreases lengths.len(),
{
    if lengths.len() > 0 {
        lemma_longest_length_bounds(lengths.drop_last());
        assert forall|i: int| 0 <= i < lengths.len() implies #[trigger] lengths[i] <= longest_length(lengths) by {
            if i < lengths.len() - 1 {
                assert(lengths.drop_last()[i] == lengths[i]);
            }
        }
    }
}

/// Distinct cells that all lie on a path without repeats are no more than its cells.
proof fn lemma_distinct_cells_within(s: Seq<Cell>, p: Seq<Cell>)
    requires
        s.no_duplicates(),
        p.no_duplicates(),
        forall|i: int| 0 <= i < s.len() ==> p.contains(#[trigger] s[i]),
    ensures
        s.len() <= p.len(),
{
    s.unique_seq_to_set();
    p.unique_seq_to_set();
    assert(s.to_set().subset_of(p.to_set())) by {
        assert forall|c: Cell| s.to_set().contains(c) implies p.to_set().contains(c) by {
            let i = choose|i: int| 0 <= i < s.len() && s[i] == c;
            assert(p.contains(s[i]));
        }
    }
    vstd::set_lib::lemma_len_subset(s.to_set(), p.to_set());
}

/// The cells of a line are distinct and lie on it.
proof fn lemma_line_cells(n: int, line: int, along_row: bool)
    requires
        0 <= line < n,
        n <= usize::MAX,
    ensures
        crate::engine::line_cells(n, line, along_row).no_duplicates(),
        crate::engine::line_cells(n, line, along_row).len() == n,
        forall|k: int| 0 <= k < n ==> on_line(#[trigger] crate::engine::line_cells(n, line, along_row)[k], n, line, along_row),
{
}

/// A walk of `target` picks, at most the matrix size, never stalls before the
/// end, and on a matrix of two or more rows never covers every cell.
pub proof fn lemma_short_walks_go_through(n: int, target: int)
    requires
        2 <= n <= usize::MAX,
        target <= n,
    ensures
        !walk_can_stall(n, target),
        !walk_can_cover(n, target),
{
    if walk_can_stall(n, target) {
        let p = choose|p: Seq<Cell>| {
            &&& #[trigger] crate::laws::follows_pick_rules(p)
            &&& cells_inside(p, n)
            &&& 1 <= p.len() < target
            &&& forall|c: Cell| !walk_may_take(p, n, c)
        };
        let last = p.last();
        assert(p[p.len() - 1] == last);
        let along_row = p.len() % 2 != 1;
        let line = if along_row { last.0 as int } else { last.1 as int };
        lemma_line_cells(n, line, along_row);
        let cells = crate::engine::line_cells(n, line, along_row);
        assert forall|i: int| 0 <= i < cells.len() implies p.contains(#[trigger] cells[i]) by {
            assert(!walk_may_take(p, n, cells[i]));
        }
        lemma_distinct_cells_within(cells, p);
    }
    if walk_can_cover(n, target) {
        let p = choose|p: Seq<Cell>| {
            &&& #[trigger] crate::laws::follows_pick_rules(p)
            &&& cells_inside(p, n)
            &&& p.len() == target
            &&& forall|row: int, col: int| 0 <= row < n && 0 <= col < n ==> #[trigger] holds_cell(p, row, col)
        };
        lemma_line_cells(n, 0, true);
        let row0 = crate::engine::line_cells(n, 0, true);
        let cells = row0.push((1usize, 0usize));
        assert forall|i: int, j: int| 0 <= i < cells.len() && 0 <= j < cells.len() && i != j implies cells[i] != cells[j] by {
            if i < row0.len() && j < row0.len() {
                assert(row0[i] != row0[j]);
            }
        }
        assert forall|i: int| 0 <= i < cells.len() implies p.contains(#[trigger] cells[i]) by {
            if i < row0.len() {
                assert(cells[i] == row0[i]);
                assert(holds_cell(p, 0, i));
            } else {
                assert(holds_cell(p, 1, 0));
            }
        }
        lemma_distinct_cells_within(cells, p);
    }
}

/// The grid `g` with the first `k` cells of `path` holding the first `k` of
/// `tokens`, one after another.
pub open spec fn planted(g: Seq<Seq<Seq<char>>>, path: Seq<Cell>, tokens: Seq<Seq<char>>, k: int) -> Seq<Seq<Seq<char>>>
    decreases k,
{
    if k <= 0 {
        g
    } else {
        let before = planted(g, path, tokens, k - 1);
        let cell = path[k - 1];
        before.update(cell.0 as int, before[cell.0 as int].update(cell.1 as int, tokens[k - 1]))
    }
}

/// The runs of `tokens` that `windows` (start and length) cut out, in order.
pub open spec fn cut_runs(tokens: Seq<Seq<char>>, windows: Seq<(usize, usize)>) -> Seq<Seq<Seq<char>>> {
    Seq::new(windows.len(), |i: int| tokens.subrange(windows[i].0 as int, windows[i].0 + windows[i].1))
}

/// Some cell of an `n` by `n` matrix is off `path`.
pub open spec fn has_free_cell(n: int, path: Seq<Cell>) -> bool {
    exists|row: int, col: int| 0 <= row < n && 0 <= col < n && !#[trigger] holds_cell(path, row, col)
}

/// Why assembling a candidate from drawn values gives up: two cut daemons are
/// equal, no cell is left off the path for a decoy, or the daemons hold no token.
pub open spec fn assembly_fails(n: int, path: Seq<Cell>, tokens: Seq<Seq<char>>, windows: Seq<(usize, usize)>) -> bool {
    ||| has_duplicate(cut_runs(tokens, windows))
    ||| !has_free_cell(n, path)
    ||| grid_tokens(cut_runs(tokens, windows)).len() == 0
}

/// Values that the draws of a try can give on an `n` by `n` matrix: a walk by
/// the pick rules of `target` cells, as many tokens of `alphabet`, and a window
/// of each daemon's length inside them.
pub open spec fn possible_draw(
    n: int,
    target: int,
    lengths: Seq<usize>,
    alphabet: Seq<Seq<char>>,
    path: Seq<Cell>,
    tokens: Seq<Seq<char>>,
    windows: Seq<(usize, usize)>,
) -> bool {
    &&& crate::laws::follows_pick_rules(path)
    &&& cells_inside(path, n)
    &&& path.len() == target
    &&& tokens.len() == target
    &&& drawn_from(tokens, alphabet)
    &&& windows.len() == lengths.len()
    &&& forall|i: int| 0 <= i < windows.len() ==> (#[trigger] windows[i]).1 == lengths[i]
        && windows[i].0 + windows[i].1 <= target
}

/// Builds a candidate from drawn values: plants `tokens` along `path` in
/// `matrix`, cuts a daemon out of the tokens for each window, worth ten points
/// per token, and puts a random daemon token on a random cell off the path.
/// `None` exactly where two daemons are equal, no cell is off the path, or the
/// daemons hold no token.
pub fn assemble_candidate(
    matrix: Vec<Vec<Token>>,
    path: Vec<Cell>,
    tokens: &Vec<Token>,
    windows: &Vec<(usize, usize)>,
    rng: &mut StdRng,
) -> (r: Option<Candidate>)
    requires
        forall|row: int| 0 <= row < matrix@.len() ==> (#[trigger] matrix@[row])@.len() == matrix@.len(),
        cells_inside(path@, matrix@.len() as int),
        path@.no_duplicates(),
        tokens@.len() == path@.len(),
        forall|i: int| 0 <= i < windows@.len() ==> (#[trigger] windows@[i]).0 + windows@[i].1 <= tokens@.len()
            && windows@[i].1 * 10 <= u32::MAX,
    ensures
        r is None <==> assembly_fails(matrix@.len() as int, path@, token_views(tokens@), windows@),
        r matches Some(c) ==> {
            let n = matrix@.len() as int;
            let g = planted(grid_views(matrix@), path@, token_views(tokens@), path@.len() as int);
            &&& c.path@ == path@
            &&& grid_views(c.sequences@) == cut_runs(token_views(tokens@), windows@)
            &&& c.values@.len() == windows@.len()
            &&& forall|i: int| 0 <= i < windows@.len() ==> #[trigger] c.values@[i] == windows@[i].1 * 10
            &&& exists|row: int, col: int, token: Seq<char>| {
                &&& 0 <= row < n && 0 <= col < n
                &&& !#[trigger] holds_cell(path@, row, col)
                &&& #[trigger] grid_tokens(cut_runs(token_views(tokens@), windows@)).contains(token)
                &&& grid_views(c.matrix@) == g.update(row, g[row].update(col, token))
            }
            &&& c.matrix@.len() == n
            &&& forall|row: int| 0 <= row < n ==> (#[trigger] c.matrix@[row])@.len() == n
            &&& path_tokens(grid_views(c.matrix@), path@) == token_views(tokens@)
            &&& forall|row: int, col: int| 0 <= row < n && 0 <= col < n ==> {
                ||| grid_views(c.matrix@)[row][col] == grid_views(matrix@)[row][col]
                ||| token_views(tokens@).contains(#[trigger] grid_views(c.matrix@)[row][col])
            }
        },
{
    let mut matrix = matrix;
    let n = matrix.len();
    let ghost g0 = grid_views(matrix@);
    let ghost t = token_views(tokens@);
    let mut idx: usize = 0;
    while idx < path.len()
        invariant
            idx <= path@.len(),
            n == matrix@.len(),
            g0.len() == n,
            tokens@.len() == path@.len(),
            t == token_views(tokens@),
            cells_inside(path@, n as int),
            path@.no_duplicates(),
            forall|row: int| 0 <= row < n ==> (#[trigger] matrix@[row])@.len() == n,
            forall|row: int| 0 <= row < n ==> (#[trigger] g0[row]).len() == n,
            grid_views(matrix@) == planted(g0, path@, t, idx as int),
            forall|j: int| 0 <= j < idx ==> grid_views(matrix@)[(#[trigger] path@[j]).0 as int][path@[j].1 as int] == t[j],
            forall|row: int, col: int| 0 <= row < n && 0 <= col < n ==> {
                ||| grid_views(matrix@)[row][col] == g0[row][col]
                ||| t.contains(#[trigger] grid_views(matrix@)[row][col])
            },
        decreases path@.len() - idx,
    {
        let (row, col) = path[idx];
        let ghost before = grid_views(matrix@);
        set_cell(&mut matrix, row, col, tokens[idx].clone());
        assert forall|j: int| 0 <= j <= idx implies grid_views(matrix@)[(#[trigger] path@[j]).0 as int][path@[j].1 as int] == t[j] by {
            if j < idx {
                assert(path@[j] != path@[idx as int]);
            }
        }
        assert forall|r2: int, c2: int| 0 <= r2 < n && 0 <= c2 < n implies {
            ||| grid_views(matrix@)[r2][c2] == g0[r2][c2]
            ||| t.contains(#[trigger] grid_views(matrix@)[r2][c2])
        } by {
            if r2 == row as int && c2 == col as int {
                assert(grid_views(matrix@)[r2][c2] == t[idx as int]);
            } else {
                assert(grid_views(matrix@)[r2][c2] == before[r2][c2]);
            }
        }
        idx += 1;
    }
    let ghost planted_grid = grid_views(matrix@);
    assert(path_tokens(planted_grid, path@) =~= t);
    let mut sequences: Vec<Vec<Token>> = Vec::new();
    let mut values: Vec<u32> = Vec::new();
    let mut w: usize = 0;
    while w < windows.len()
        invariant
            w <= windows@.len(),
            tokens@.len() == path@.len(),
            t == token_views(tokens@),
            forall|i: int| 0 <= i < windows@.len() ==> (#[trigger] windows@[i]).0 + windows@[i].1 <= tokens@.len()
                && windows@[i].1 * 10 <= u32::MAX,
            sequences@.len() == w,
            values@.len() == w,
            grid_views(sequences@) == cut_runs(t, windows@).take(w as int),
            forall|i: int| 0 <= i < w ==> #[trigger] values@[i] == windows@[i].1 * 10,
        decreases windows@.len() - w,
    {
        let (start, length) = windows[w];
        let run = copy_run(tokens, start, length);
        let ghost before = grid_views(sequences@);
        sequences.push(run);
        assert(grid_views(sequences@) =~= cut_runs(t, windows@).take(w + 1));
        values.push(length as u32 * 10);
        w += 1;
    }
    assert(cut_runs(t, windows@).take(w as int) =~= cut_runs(t, windows@));
    if has_duplicate_sequences(&sequences) {
        return None;
    }
    let ghost before_decoy = grid_views(matrix@);
    let placed = place_meaningful_decoy(&mut matrix, &path, &sequences, rng);
    proof {
        if has_free_cell(n as int, path@) {
            let (row, col) = choose|row: int, col: int| 0 <= row < n && 0 <= col < n && !#[trigger] holds_cell(path@, row, col);
            assert(before_decoy[row].len() == n);
            assert(off_path(before_decoy, path@, row, col));
        }
        assert forall|row: int, col: int| off_path(before_decoy, path@, row, col) implies has_free_cell(n as int, path@) by {
            assert(!holds_cell(path@, row, col));
        }
    }
    if !placed {
        return None;
    }
    proof {
        let g = grid_views(matrix@);
        let (row, col, token) = choose|row: int, col: int, token: Seq<char>| {
            &&& off_path(before_decoy, path@, row, col)
            &&& grid_tokens(grid_views(sequences@)).contains(token)
            &&& g == before_decoy.update(row, before_decoy[row].update(col, token))
        };
        assert(!holds_cell(path@, row, col));
        assert(g.len() == before_decoy.len());
        assert forall|r: int| 0 <= r < n implies (#[trigger] matrix@[r])@.len() == n by {
            assert(g[r].len() == before_decoy[r].len());
            assert(g[r].len() == matrix@[r]@.len());
        }
        assert(path_tokens(g, path@) =~= t) by {
            assert forall|j: int| 0 <= j < path@.len() implies #[trigger] path_tokens(g, path@)[j] == t[j] by {
                let cell = path@[j];
                assert(path@.contains(cell));
                if cell.0 as int == row && cell.1 as int == col {
                    assert(path@.contains((row as usize, col as usize)));
                }
            }
        }
        lemma_grid_token_in_row(grid_views(sequences@), token);
        let s = choose|s: int| 0 <= s < grid_views(sequences@).len() && (#[trigger] grid_views(sequences@)[s]).contains(token);
        let k = choose|k: int| 0 <= k < grid_views(sequences@)[s].len() && grid_views(sequences@)[s][k] == token;
        assert(t[windows@[s].0 + k] == token);
        assert(t.contains(token));
        assert forall|r2: int, c2: int| 0 <= r2 < n && 0 <= c2 < n implies {
            ||| g[r2][c2] == g0[r2][c2]
            ||| t.contains(#[trigger] g[r2][c2])
        } by {
            if r2 == row && c2 == col {
                assert(g[r2][c2] == token);
            } else {
                assert(g[r2][c2] == before_decoy[r2][c2]);
            }
        }
    }
    Some(Candidate { matrix, sequences, values, path })
}

/// One try at a puzzle: a random matrix, a planted path of `target` picks (the
/// path length cap, or the longest daemon where longer) spelling random
/// tokens, daemons cut from that buffer, and a decoy off the path. `None`
/// where the walk fell short, a window did not fit, or the drawn values do
/// not assemble (two daemons came out equal, or no decoy could be placed):
/// only where such draws are possible.
pub fn build_candidate(
    config: &BreachConfig,
    lengths: &Vec<usize>,
    max_path_len: usize,
    rng: &mut StdRng,
) -> (r: Result<Option<Candidate>, GameError>)
    requires
        config.matrix_size * config.matrix_size * 5 <= usize::MAX,
        max_path_len <= config.matrix_size * config.matrix_size || max_path_len <= 5,
        lengths@.len() <= 5,
        forall|i: int| 0 <= i < lengths@.len() ==> #[trigger] lengths@[i] <= 5,
    ensures
        r is Ok <==> generation_problem(*config, 1) is None,
        r matches Err(e) ==> config_error_says(e, generation_problem(*config, 1)),
        r matches Ok(Some(c)) ==> candidate_ok(c, config.matrix_size as int, lengths@,
            planted_length(max_path_len as int, lengths@), token_views(config.token_alphabet@)),
        r == Ok::<Option<Candidate>, GameError>(None) ==> {
            ||| walk_can_stall(config.matrix_size as int, planted_length(max_path_len as int, lengths@))
            ||| exists|i: int| 0 <= i < lengths@.len() && #[trigger] lengths@[i] == 0
            ||| exists|path: Seq<Cell>, tokens: Seq<Seq<char>>, windows: Seq<(usize, usize)>| {
                &&& #[trigger] possible_draw(config.matrix_size as int, planted_length(max_path_len as int, lengths@),
                    lengths@, token_views(config.token_alphabet@), path, tokens, windows)
                &&& assembly_fails(config.matrix_size as int, path, tokens, windows)
            }
        },
        r == Ok::<Option<Candidate>, GameError>(None) ==> {
            ||| walk_can_stall(config.matrix_size as int, planted_length(max_path_len as int, lengths@))
            ||| lengths@.len() != 1
            ||| lengths@[0] == 0
            ||| walk_can_cover(config.matrix_size as int, planted_length(max_path_len as int, lengths@))
        },
        generation_problem(*config, 1) is None && lengths@.len() == 1 && lengths@[0] >= 1 && 2 <= config.matrix_size
            && planted_length(max_path_len as int, lengths@) <= config.matrix_size ==> r matches Ok(Some(_)),
{
    proof {
        if 2 <= config.matrix_size && planted_length(max_path_len as int, lengths@) <= config.matrix_size {
            lemma_short_walks_go_through(config.matrix_size as int, planted_length(max_path_len as int, lengths@));
        }
    }
    let matrix = match generate_matrix(config, rng) {
        Ok(matrix) => matrix,
        Err(e) => {
            return Err(e);
        },
    };
    let n = config.matrix_size;
    let mut longest: usize = 0;
    let mut i: usize = 0;
    while i < lengths.len()
        invariant
            i <= lengths@.len(),
            longest == longest_length(lengths@.take(i as int)),
            longest <= 5,
            forall|j: int| 0 <= j < lengths@.len() ==> #[trigger] lengths@[j] <= 5,
        decreases lengths@.len() - i,
    {
        assert(lengths@.take(i + 1).drop_last() =~= lengths@.take(i as int));
        if lengths[i] > longest {
            longest = lengths[i];
        }
        i += 1;
    }
    assert(lengths@.take(i as int) =~= lengths@);
    proof {
        lemma_longest_length_bounds(lengths@);
    }
    let target = if max_path_len >= longest { max_path_len } else { longest };
    let path = generate_valid_path(n, target, rng);
    if path.len() < target {
        return Ok(None);
    }
    let buffer_tokens = generate_path_tokens(&config.token_alphabet, path.len(), rng);
    let ghost alphabet = token_views(config.token_alphabet@);
    proof {
        assert(lengths@.len() * path@.len() <= usize::MAX) by (nonlinear_arith)
            requires
                lengths@.len() <= 5,
                path@.len() <= n * n || path@.len() <= 5,
                n * n * 5 <= usize::MAX,
        ;
    }
    let windows = match choose_sequence_windows(lengths, buffer_tokens.len(), rng) {
        Some(windows) => windows,
        None => {
            return Ok(None);
        },
    };
    let ghost g0 = grid_views(matrix@);
    let ghost t = token_views(buffer_tokens@);
    proof {
        assert(possible_draw(n as int, target as int, lengths@, alphabet, path@, t, windows@));
        assert forall|r: int| 0 <= r < n implies drawn_from(#[trigger] g0[r], alphabet) by {
            assert(g0[r] == token_views(matrix@[r]@));
        }
    }
    let ghost path_seen = path@;
    match assemble_candidate(matrix, path, &buffer_tokens, &windows, rng) {
        None => {
            proof {
                assert(assembly_fails(n as int, path_seen, t, windows@));
                if lengths@.len() == 1 && lengths@[0] != 0 {
                    let rows = cut_runs(t, windows@);
                    assert(!has_duplicate(rows));
                    assert(rows.drop_last() =~= Seq::<Seq<Seq<char>>>::empty());
                    assert(rows[0].len() == lengths@[0]);
                    assert(grid_tokens(rows).len() > 0);
                    assert(!has_free_cell(n as int, path_seen));
                    assert forall|row: int, col: int| 0 <= row < n && 0 <= col < n implies #[trigger] holds_cell(path_seen, row, col) by {
                        if !holds_cell(path_seen, row, col) {
                            assert(has_free_cell(n as int, path_seen));
                        }
                    }
                    assert(crate::laws::follows_pick_rules(path_seen));
                }
            }
            Ok(None)
        },
        Some(candidate) => {
            proof {
                let g = grid_views(candidate.matrix@);
                assert forall|r: int| 0 <= r < n implies drawn_from(#[trigger] g[r], alphabet) by {
                    assert forall|k: int| 0 <= k < g[r].len() implies alphabet.contains(#[trigger] g[r][k]) by {
                        assert(drawn_from(g0[r], alphabet));
                        if !t.contains(g[r][k]) {
                            assert(g[r][k] == g0[r][k]);
                        } else {
                            let q = choose|q: int| 0 <= q < t.len() && t[q] == g[r][k];
                        }
                    }
                }
                assert forall|i: int| 0 <= i < lengths@.len() implies {
                    &&& (#[trigger] grid_views(candidate.sequences@)[i]).len() == lengths@[i]
                    &&& appears_in(path_tokens(g, candidate.path@), grid_views(candidate.sequences@)[i])
                    &&& candidate.values@[i] == lengths@[i] * 10
                } by {
                    assert(grid_views(candidate.sequences@)[i] == cut_runs(t, windows@)[i]);
                    assert(window_matches(t, cut_runs(t, windows@)[i], windows@[i].0 as int));
                }
            }
            Ok(Some(candidate))
        },
    }
}

/// What `with_planted_solution_proof` adds once the planted path uploads every
/// daemon after `moves` picks.
pub open spec fn with_planted_moves(report: SearchReport, total: u32, moves: int) -> SearchReport {
    SearchReport {
        max_score: if report.max_score >= total { report.max_score } else { total },
        all_sequences_solvable: true,
        min_moves_to_all: spec_min_option(report.min_moves_to_all, Some(moves as usize)),
        min_moves_to_max_score: spec_min_option(report.min_moves_to_max_score, Some(moves as usize)),
        ..report
    }
}

/// The planted-solution proof keeps the fewer picks: the count of picks to
/// upload every daemon (and to the best score) that it reports is at most the
/// planted path's count and at most the solver's, and is one of the two; the
/// report then has every daemon solvable and at least the full score.
pub proof fn law_planted_proof_keeps_fewer_picks(report: SearchReport, total: u32, moves: int)
    requires
        1 <= moves <= usize::MAX,
    ensures
        ({
            let made = with_planted_moves(report, total, moves);
            &&& made.min_moves_to_all matches Some(b) && b <= moves
                && (report.min_moves_to_all matches Some(a) ==> b <= a)
                && (b == moves || report.min_moves_to_all == Some(b))
            &&& made.min_moves_to_max_score matches Some(b) && b <= moves
                && (report.min_moves_to_max_score matches Some(a) ==> b <= a)
                && (b == moves || report.min_moves_to_max_score == Some(b))
            &&& made.all_sequences_solvable
            &&& made.max_score >= report.max_score && made.max_score >= total
        }),
{
}

/// Where the solver's count of picks to upload every daemon is the game
/// tree's, the planted-solution proof leaves it as it is: a planted path that
/// uploads every daemon from the opening takes no fewer picks than the tree's
/// fewest.
pub proof fn law_planted_proof_keeps_exact_count(start: EngineView, path: Seq<Cell>, k: int, report: SearchReport, total: u32)
    requires
        crate::game_tree::in_run(start),
        start.buffer.len() == 0,
        1 <= k <= path.len(),
        k <= usize::MAX,
        uploads_all_after(start, path, k),
        match (report.min_moves_to_all, crate::game_tree::tree_outcome(start).all_moves) {
            (Some(a), Some(b)) => a == b,
            (None, None) => true,
            _ => false,
        },
    ensures
        with_planted_moves(report, total, k).min_moves_to_all == report.min_moves_to_all,
{
    crate::game_tree::law_tree_bounds_every_run(start, path.take(k));
    crate::laws::lemma_play_length(start, path.take(k));
}

/// Playing the first `k` picks of `path` from `start` is accepted and uploads every daemon.
pub open spec fn uploads_all_after(start: EngineView, path: Seq<Cell>, k: int) -> bool {
    &&& play(start, path.take(k)) is Some
    &&& play(start, path.take(k))->0.all_uploaded()
}

/// After the first `j` picks of a path by the pick rules, its next cell is legal.
proof fn lemma_planted_pick_legal(start: EngineView, path: Seq<Cell>, j: int, w: EngineView)
    requires
        crate::laws::reached_by(start, path.take(j), w),
        crate::laws::follows_pick_rules(path),
        cells_inside(path, start.matrix_size as int),
        0 <= j < path.len(),
    ensures
        w.legal(path[j]),
{
    let part = path.take(j);
    let cell = path[j];
    assert(!part.contains(cell)) by {
        if part.contains(cell) {
            let q = choose|q: int| 0 <= q < part.len() && part[q] == cell;
            assert(path[q] == path[j]);
        }
    }
    if j > 0 {
        assert(part.last() == path[j - 1]);
    }
}

/// After the first `j` picks of a path that spells every daemon somewhere,
/// within a buffer that holds the whole path, each daemon not yet uploaded
/// can still upload.
proof fn lemma_planted_daemon_completable(start: EngineView, path: Seq<Cell>, j: int, w: EngineView, i: int)
    requires
        crate::laws::reached_by(start, path.take(j), w),
        path.len() <= start.buffer_size,
        0 <= j <= path.len(),
        0 <= i < start.sequences.len(),
        !w.uploaded[i],
        appears_in(path_tokens(start.matrix, path), start.sequences[i]),
    ensures
        w.can_upload(i),
{
    let full = path_tokens(start.matrix, path);
    assert(w.buffer =~= full.take(j));
    let seq_i = start.sequences[i];
    let st = choose|st: int| window_matches(full, seq_i, st);
    let end = st + seq_i.len();
    if end <= j {
        assert(w.buffer.subrange(st, end) =~= full.subrange(st, end));
        assert(window_matches(w.buffer, seq_i, st));
    }
    let more = full.subrange(j, end);
    assert(w.buffer + more =~= full.take(end));
    assert((w.buffer + more).subrange(st, end) =~= full.subrange(st, end));
    assert(window_matches(w.buffer + more, seq_i, st));
    assert(seq_i.len() > 0);
    assert(appears_in(w.buffer + more, seq_i));
    assert(full.len() == path.len());
    assert(w.buffer.len() == j);
    assert(more.len() <= w.remaining_slots());
    crate::laws::law_can_still_upload_means_completable(w.buffer, seq_i, w.remaining_slots());
    assert(crate::engine::can_still_upload(w.buffer, w.sequences[i], w.remaining_slots()));
}

/// From the state after the first `j` planted picks, the planted path goes on
/// being accepted until every daemon is uploaded, within the path.
proof fn lemma_planted_run_from(start: EngineView, path: Seq<Cell>, j: int)
    requires
        start.wf(),
        start.is_opening(),
        crate::laws::follows_pick_rules(path),
        cells_inside(path, start.matrix_size as int),
        path.len() <= start.buffer_size,
        start.sequences.len() >= 1,
        forall|i: int| 0 <= i < start.sequences.len()
            ==> #[trigger] appears_in(path_tokens(start.matrix, path), start.sequences[i]),
        0 <= j <= path.len(),
        play(start, path.take(j)) is Some,
    ensures
        exists|k: int| 1 <= k <= path.len() && j <= k && #[trigger] uploads_all_after(start, path, k),
    decreases path.len() - j,
{
    let part = path.take(j);
    let w = play(start, part)->0;
    crate::laws::lemma_play_from_opening(start, part);
    let full = path_tokens(start.matrix, path);
    if j == 0 {
        crate::laws::lemma_nothing_appears_in_empty(start.sequences[0]);
        assert(w.buffer =~= Seq::<Seq<char>>::empty());
        assert(!w.uploaded[0]);
    }
    if w.all_uploaded() {
        assert(uploads_all_after(start, path, j));
        return;
    }
    let i = choose|i: int| 0 <= i < w.uploaded.len() && !w.uploaded[i];
    if j == path.len() {
        assert(part =~= path);
        assert(appears_in(full, start.sequences[i]));
        assert(false);
    }
    let cell = path[j];
    lemma_planted_pick_legal(start, path, j, w);
    lemma_planted_daemon_completable(start, path, j, w, i);
    assert(w.has_completable());
    assert(w.has_legal());
    assert(w.terminal is None);
    let next = path.take(j + 1);
    assert(next.drop_last() =~= part);
    assert(next.last() == cell);
    assert(play(start, next) == Some(w.after_move(cell)));
    lemma_planted_run_from(start, path, j + 1);
}

/// The planted path of a candidate, played from the opening of its puzzle on
/// a buffer that holds it, is accepted pick by pick until every daemon is
/// uploaded, and that happens within the path.
pub proof fn law_planted_path_uploads_every_daemon(config: BreachConfig, c: Candidate, lengths: Seq<usize>, target: int)
    requires
        candidate_ok(c, config.matrix_size as int, lengths, target, token_views(config.token_alphabet@)),
        target <= config.buffer_size,
        lengths.len() >= 1,
    ensures
        exists|k: int| 1 <= k <= c.path@.len()
            && #[trigger] uploads_all_after(opening_view(config, c.matrix@, c.sequences@, c.values@), c.path@, k),
{
    let start = opening_view(config, c.matrix@, c.sequences@, c.values@);
    crate::engine::lemma_derived_ignores_terminal(start, None);
    assert(start.wf());
    assert(start.is_opening());
    assert(c.path@.take(0) =~= Seq::<Cell>::empty());
    assert(play(start, c.path@.take(0)) == Some(start));
    lemma_planted_run_from(start, c.path@, 0);
}

/// Plays the planted path on the puzzle and, at the first pick after which
/// every daemon is uploaded, records that the puzzle is fully solvable in that
/// many moves (keeping a lower count already found).
pub fn with_planted_solution_proof(
    report: SearchReport,
    config: &BreachConfig,
    matrix: &Vec<Vec<Token>>,
    sequences: &Vec<Vec<Token>>,
    values: &Vec<u32>,
    path: &Vec<Cell>,
) -> (r: Result<SearchReport, GameError>)
    requires
        values_total(values@) <= u32::MAX,
    ensures
        ({
            let start = opening_view(*config, matrix@, sequences@, values@);
            let problem = config_problem(*config, grid_views(matrix@), sequences@.len() as int, values@.len() as int);
            match r {
                Ok(made) => problem is None && (
                    (exists|k: int| {
                        &&& 1 <= k <= path@.len()
                        &&& #[trigger] uploads_all_after(start, path@, k)
                        &&& forall|j: int| 1 <= j < k ==> !uploads_all_after(start, path@, j)
                        &&& made == with_planted_moves(report, values_total(values@) as u32, k)
                    }) || ({
                        &&& forall|k: int| 1 <= k <= path@.len() ==> !#[trigger] uploads_all_after(start, path@, k)
                        &&& play(start, path@) is Some
                        &&& made == report
                    })),
                Err(e) => config_error_says(e, problem) || (problem is None && exists|j: int| {
                    &&& 1 <= j <= path@.len()
                    &&& #[trigger] play(start, path@.take(j)) is None
                    &&& play(start, path@.take(j - 1)) is Some
                    &&& forall|i: int| 1 <= i < j ==> !uploads_all_after(start, path@, i)
                    &&& e == GameError::InvalidMove(path@[j - 1])
                }),
            }
        }),
        r matches Ok(made) ==> (report.min_moves_to_all matches Some(a)
            ==> (made.min_moves_to_all matches Some(b) && b <= a)),
        r matches Ok(made) ==> (report.min_moves_to_max_score matches Some(a)
            ==> (made.min_moves_to_max_score matches Some(b) && b <= a)),
        r matches Ok(made) ==> made.max_score >= report.max_score,
        r matches Ok(made) ==> (made.min_moves_to_all matches Some(b) ==> report.min_moves_to_all == Some(b)
            || (1 <= b <= path@.len() && uploads_all_after(opening_view(*config, matrix@, sequences@, values@), path@, b as int))),
{
    let ghost start = opening_view(*config, matrix@, sequences@, values@);
    let total_score = values_sum(values);
    let own_config = BreachConfig {
        matrix_size: config.matrix_size,
        buffer_size: config.buffer_size,
        time_limit_seconds: config.time_limit_seconds,
        token_alphabet: copy_tokens(&config.token_alphabet),
        seed: config.seed,
    };
    let mut engine = match GameEngine::new(own_config, copy_grid(matrix), copy_grid(sequences), copy_items(values)) {
        Ok(engine) => engine,
        Err(e) => {
            return Err(e);
        },
    };
    assert(engine@ == start);
    assert(config_problem(*config, grid_views(matrix@), sequences@.len() as int, values@.len() as int) is None);
    assert(path@.take(0) =~= Seq::<Cell>::empty());
    let mut idx: usize = 0;
    while idx < path.len()
        invariant
            idx <= path@.len(),
            engine@.wf(),
            start == opening_view(*config, matrix@, sequences@, values@),
            config_problem(*config, grid_views(matrix@), sequences@.len() as int, values@.len() as int) is None,
            play(start, path@.take(idx as int)) == Some(engine@),
            total_score == values_total(values@),
            forall|j: int| 1 <= j <= idx ==> !#[trigger] uploads_all_after(start, path@, j),
        decreases path@.len() - idx,
    {
        let cell = path[idx];
        let ghost before = engine@;
        assert(path@.take(idx + 1).drop_last() =~= path@.take(idx as int));
        assert(path@.take(idx + 1).last() == cell);
        match engine.apply_move(cell) {
            Ok(()) => {},
            Err(e) => {
                assert(play(start, path@.take(idx + 1)) is None);
                assert(path@.take(idx + 1 - 1) =~= path@.take(idx as int));
                let ghost j = idx + 1;
                assert({
                    &&& 1 <= j <= path@.len()
                    &&& play(start, path@.take(j)) is None
                    &&& play(start, path@.take(j - 1)) is Some
                    &&& forall|i: int| 1 <= i < j ==> !uploads_all_after(start, path@, i)
                    &&& e == GameError::InvalidMove(path@[j - 1])
                });
                return Err(e);
            },
        }
        assert(play(start, path@.take(idx + 1)) == Some(engine@));
        if engine.has_uploaded_all_sequences() {
            let moves = idx + 1;
            let mut made = report;
            made.max_score = if made.max_score >= total_score { made.max_score } else { total_score };
            made.all_sequences_solvable = true;
            made.min_moves_to_all = crate::solver::min_option(made.min_moves_to_all, Some(moves));
            made.min_moves_to_max_score = crate::solver::min_option(made.min_moves_to_max_score, Some(moves));
            assert(uploads_all_after(start, path@, moves as int));
            assert(made == with_planted_moves(report, values_total(values@) as u32, moves as int));
            return Ok(made);
        }
        idx += 1;
    }
    assert(path@.take(idx as int) =~= path@);
    Ok(report)
}

/// Whether a generated puzzle is kept: its daemons are solvable as requested
/// (all of them with the full score, or some score), its rating is known or an
/// uncertain one is allowed, it is not trivial (a rated puzzle with a trivial
/// tier, no branching or no trap move), and all daemons fit in the buffer.
pub open spec fn accepted_spec(spec: PuzzleSpec, report: SearchReport, tier_is_trivial: bool, total_score: u32) -> bool {
    let required_solved = if spec.require_all_sequences {
        report.all_sequences_solvable && report.max_score == total_score
    } else {
        report.max_score > 0
    };
    let known = !report.node_cap_reached;
    let too_trivial = known && (tier_is_trivial || report.max_branching_factor <= 1 || report.trap_moves == 0);
    &&& required_solved
    &&& (known || spec.allow_uncertain_difficulty)
    &&& !too_trivial
    &&& match report.min_moves_to_all {
        Some(moves) => moves <= spec.config.buffer_size,
        None => usize::MAX <= spec.config.buffer_size,
    }
}

/// The daemons are solved as the request asks: every one of them with the
/// full score, or, where not every one is asked for, some score.
pub open spec fn solved_as_requested(spec: PuzzleSpec, report: SearchReport, total_score: u32) -> bool {
    if spec.require_all_sequences {
        report.all_sequences_solvable && report.max_score == total_score
    } else {
        report.max_score > 0
    }
}

/// A report whose search hit the node cap is kept only on a request that
/// allows an uncertain rating, and on such a request it is kept whenever its
/// daemons are solved as requested and a full upload fits the buffer. A
/// report of a complete search is kept only if it is not trivial: a tier
/// that is not trivial, a state with two picks or more, and a trap pick.
/// Nothing is kept that is not solved as requested.
pub proof fn law_uncertain_rating_rule(spec: PuzzleSpec, report: SearchReport, tier_is_trivial: bool, total_score: u32)
    ensures
        report.node_cap_reached && !spec.allow_uncertain_difficulty
            ==> !accepted_spec(spec, report, tier_is_trivial, total_score),
        report.node_cap_reached && spec.allow_uncertain_difficulty && solved_as_requested(spec, report, total_score)
            && (report.min_moves_to_all matches Some(m) && m <= spec.config.buffer_size)
            ==> accepted_spec(spec, report, tier_is_trivial, total_score),
        !report.node_cap_reached && accepted_spec(spec, report, tier_is_trivial, total_score)
            ==> !tier_is_trivial && report.max_branching_factor >= 2 && report.trap_moves >= 1,
        accepted_spec(spec, report, tier_is_trivial, total_score) ==> solved_as_requested(spec, report, total_score),
{
}

/// Whether a generated puzzle is kept (see `accepted_spec`).
pub fn puzzle_accepted(spec: &PuzzleSpec, report: &SearchReport, tier_is_trivial: bool, total_score: u32) -> (keep: bool)
    ensures
        keep == accepted_spec(*spec, *report, tier_is_trivial, total_score),
        report.node_cap_reached && !spec.allow_uncertain_difficulty ==> !keep,
        report.node_cap_reached && spec.allow_uncertain_difficulty && solved_as_requested(*spec, *report, total_score)
            && (report.min_moves_to_all matches Some(m) && m <= spec.config.buffer_size) ==> keep,
        !report.node_cap_reached && keep
            ==> !tier_is_trivial && report.max_branching_factor >= 2 && report.trap_moves >= 1,
        keep ==> solved_as_requested(*spec, *report, total_score),
{
    proof {
        law_uncertain_rating_rule(*spec, *report, tier_is_trivial, total_score);
    }
    let required_solved = if spec.require_all_sequences {
        report.all_sequences_solvable && report.max_score == total_score
    } else {
        report.max_score > 0
    };
    let known = !report.node_cap_reached;
    let too_trivial = known && (tier_is_trivial || report.max_branching_factor <= 1 || report.trap_moves == 0);
    let moves = match report.min_moves_to_all {
        Some(moves) => moves,
        None => usize::MAX,
    };
    required_solved && (known || spec.allow_uncertain_difficulty) && !too_trivial && moves <= spec.config.buffer_size
}

/// A puzzle that the generation loop keeps on a request for every daemon is
/// what the request asks for and is fully solvable: its matrix is `n` by `n`
/// over the alphabet; its daemons are distinct, have the planned lengths and
/// are worth ten points per token; its planted path follows the pick rules,
/// fits the buffer and, replayed from the opening, uploads every daemon; and
/// its report has every daemon solvable, the full score as the best, a full
/// upload within the buffer and, where the search was complete, a state with
/// two picks or more and a trap pick.
pub proof fn law_kept_puzzle_is_solvable(
    spec: PuzzleSpec,
    c: Candidate,
    max_path_len: int,
    report: SearchReport,
    tier_is_trivial: bool,
)
    requires
        spec.num_sequences >= 1,
        spec.config.buffer_size >= 1,
        spec.require_all_sequences,
        max_path_len == path_length_cap(spec.config.matrix_size as int, spec.config.buffer_size as int),
        longest_length(sequence_lengths(spec.num_sequences as int, spec.config.buffer_size as int)) <= max_path_len,
        candidate_ok(c, spec.config.matrix_size as int, sequence_lengths(spec.num_sequences as int, spec.config.buffer_size as int),
            planted_length(max_path_len, sequence_lengths(spec.num_sequences as int, spec.config.buffer_size as int)),
            token_views(spec.config.token_alphabet@)),
        values_total(c.values@) <= u32::MAX,
        accepted_spec(spec, report, tier_is_trivial, values_total(c.values@) as u32),
    ensures
        ({
            let n = spec.config.matrix_size as int;
            let b = spec.config.buffer_size as int;
            let lengths = sequence_lengths(spec.num_sequences as int, spec.config.buffer_size as int);
            let g = grid_views(c.matrix@);
            &&& g.len() == n
            &&& forall|r: int| 0 <= r < n ==> (#[trigger] g[r]).len() == n && drawn_from(g[r], token_views(spec.config.token_alphabet@))
            &&& !has_duplicate(grid_views(c.sequences@))
            &&& grid_views(c.sequences@).len() == lengths.len()
            &&& forall|i: int| 0 <= i < lengths.len() ==> (#[trigger] grid_views(c.sequences@)[i]).len() == lengths[i]
                && c.values@[i] == lengths[i] * 10
            &&& crate::laws::follows_pick_rules(c.path@)
            &&& c.path@.len() <= b
            &&& exists|k: int| 1 <= k <= c.path@.len()
                && #[trigger] uploads_all_after(opening_view(spec.config, c.matrix@, c.sequences@, c.values@), c.path@, k)
            &&& report.all_sequences_solvable
            &&& report.max_score == values_total(c.values@)
            &&& report.min_moves_to_all matches Some(m) ==> m <= b
            &&& !report.node_cap_reached ==> report.max_branching_factor >= 2 && report.trap_moves >= 1
        }),
{
    let lengths = sequence_lengths(spec.num_sequences as int, spec.config.buffer_size as int);
    lemma_lengths_small(spec.num_sequences as int, spec.config.buffer_size as int);
    let target = planted_length(max_path_len, lengths);
    assert(target <= spec.config.buffer_size);
    law_planted_path_uploads_every_daemon(spec.config, c, lengths, target);
    let g = grid_views(c.matrix@);
    assert forall|r: int| 0 <= r < spec.config.matrix_size implies (#[trigger] g[r]).len() == spec.config.matrix_size by {
        assert(g[r] == token_views(c.matrix@[r]@));
    }
    assert(g.len() == spec.config.matrix_size);
    assert(c.path@.len() <= spec.config.buffer_size);
    assert(report.all_sequences_solvable);
    crate::engine::lemma_uploaded_total_monotone(Seq::new(c.values@.len(), |i: int| true), c.values@, c.values@.len() as int);
    assert(crate::engine::uploaded_total(Seq::new(c.values@.len(), |i: int| true), c.values@, 0) == 0);
    assert(0 <= values_total(c.values@));
    assert(report.max_score == values_total(c.values@));
    assert(report.min_moves_to_all matches Some(m) ==> m <= spec.config.buffer_size);
    assert(!has_duplicate(grid_views(c.sequences@)));
    assert(crate::laws::follows_pick_rules(c.path@));
}

/// What the generation loop does after a try: keep the candidate, make the
/// try with the given number, or give up with the error it answers with.
pub enum GenerationStep {
    Keep,
    Retry(usize),
    GiveUp(GameError),
}

/// The message of a request whose tries all failed.
pub open spec fn exhausted_message(max_attempts: nat) -> Seq<char> {
    "Failed to generate verified puzzle after "@ + decimal_text(max_attempts) + " attempts"@
}

/// The error of a request whose `max_attempts` tries all failed.
pub fn exhausted_error(max_attempts: usize) -> (e: GameError)
    ensures
        config_error_says(e, Some(exhausted_message(max_attempts as nat))),
{
    let mut text = String::from_str("Failed to generate verified puzzle after ");
    text.append(usize_text(max_attempts).as_str());
    text.append(" attempts");
    GameError::InvalidConfig(text)
}

/// The decision after try `attempt` (counted from 0) of `spec`, whose
/// candidate was `kept` or not: keep it; else make the next try while tries
/// remain; else give up.
pub fn generation_step(spec: &PuzzleSpec, attempt: usize, kept: bool) -> (step: GenerationStep)
    requires
        attempt < spec.max_attempts,
    ensures
        kept ==> step is Keep,
        !kept && attempt + 1 < spec.max_attempts ==> step == GenerationStep::Retry((attempt + 1) as usize),
        !kept && attempt + 1 >= spec.max_attempts ==> (step matches GenerationStep::GiveUp(e)
            && config_error_says(e, Some(exhausted_message(spec.max_attempts as nat)))),
{
    if kept {
        GenerationStep::Keep
    } else if attempt + 1 < spec.max_attempts {
        GenerationStep::Retry(attempt + 1)
    } else {
        GenerationStep::GiveUp(exhausted_error(spec.max_attempts))
    }
}

/// Checks a fixed puzzle as `GameEngine::new` does and hands it back.
pub fn create_fixed_game(
    config: &BreachConfig,
    matrix: Matrix,
    sequences: Sequences,
    sequence_values: SequenceValues,
) -> (r: Result<GameData, GameError>)
    ensures
        r is Ok <==> config_problem(*config, grid_views(matrix@), sequences@.len() as int, sequence_values@.len() as int) is None,
        r matches Err(e) ==> config_error_says(e,
            config_problem(*config, grid_views(matrix@), sequences@.len() as int, sequence_values@.len() as int)),
        r matches Ok(data) ==> data.0 == matrix && data.1 == sequences && data.2 == sequence_values,
{
    let own_config = BreachConfig {
        matrix_size: config.matrix_size,
        buffer_size: config.buffer_size,
        time_limit_seconds: config.time_limit_seconds,
        token_alphabet: copy_tokens(&config.token_alphabet),
        seed: config.seed,
    };
    match GameEngine::new(own_config, copy_grid(&matrix), copy_grid(&sequences), copy_items(&sequence_values)) {
        Ok(_) => Ok((matrix, sequences, sequence_values)),
        Err(e) => Err(e),
    }
}

} // verus!
