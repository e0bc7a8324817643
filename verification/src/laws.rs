//! Properties of the game that hold across calls: what a run of accepted
//! picks looks like, when daemons are uploaded, and what the score does.

use vstd::prelude::*;
use crate::engine::{Cell, ConstraintMode, EngineView, TerminalReason, appears_in, can_still_upload, lemma_after_move_wf, lemma_suffix_progress, overlaps, suffix_progress, uploaded_total, window_matches};

verus! {

/// The state reached from `start` by picking the cells of `path` in order, or
/// `None` where a pick is refused (the run is over or the cell is not legal).
pub open spec fn play(start: EngineView, path: Seq<Cell>) -> Option<EngineView>
    decreases path.len(),
{
    if path.len() == 0 {
        Some(start)
    } else {
        match play(start, path.drop_last()) {
            Some(before) => if before.terminal is None && before.legal(path.last()) {
                Some(before.after_move(path.last()))
            } else {
                None
            },
            None => None,
        }
    }
}

/// A run of picks is its first pick followed by the run of the rest from there.
pub proof fn lemma_play_first(v: EngineView, path: Seq<Cell>)
    requires
        path.len() > 0,
    ensures
        play(v, path) == (if v.terminal is None && v.legal(path[0]) {
            play(v.after_move(path[0]), path.drop_first())
        } else {
            None
        }),
    decreases path.len(),
{
    let rest = path.drop_first();
    if path.len() == 1 {
        assert(path.drop_last() =~= Seq::<Cell>::empty());
        assert(rest =~= Seq::<Cell>::empty());
        assert(play(v, path.drop_last()) == Some(v));
        assert(path.last() == path[0]);
        if v.terminal is None && v.legal(path[0]) {
            assert(play(v.after_move(path[0]), rest) == Some(v.after_move(path[0])));
        }
    } else {
        let front = path.drop_last();
        lemma_play_first(v, front);
        assert(front[0] == path[0]);
        assert(front.drop_first() =~= rest.drop_last());
        assert(rest.last() == path.last());
        if v.terminal is None && v.legal(path[0]) {
            assert(play(v.after_move(path[0]), rest) == match play(v.after_move(path[0]), rest.drop_last()) {
                Some(before) => if before.terminal is None && before.legal(rest.last()) {
                    Some(before.after_move(rest.last()))
                } else {
                    None
                },
                None => None,
            });
        }
    }
}

/// The tokens under the cells of `path`.
pub open spec fn path_tokens(matrix: Seq<Seq<Seq<char>>>, path: Seq<Cell>) -> Seq<Seq<char>> {
    path.map_values(|c: Cell| matrix[c.0 as int][c.1 as int])
}

/// Picks start in the top row, then alternate between the column and the row
/// of the previous pick, and never use a cell twice.
pub open spec fn follows_pick_rules(path: Seq<Cell>) -> bool {
    &&& path.len() > 0 ==> path[0].0 == 0
    &&& forall|i: int| 1 <= i < path.len() ==> if i % 2 == 1 {
        (#[trigger] path[i]).1 == path[i - 1].1
    } else {
        path[i].0 == path[i - 1].0
    }
    &&& path.no_duplicates()
}

/// What holds of every state that a run reaches from its opening by accepted picks.
pub open spec fn reached_by(start: EngineView, path: Seq<Cell>, w: EngineView) -> bool {
    &&& w.wf()
    &&& w.matrix_size == start.matrix_size
    &&& w.buffer_size == start.buffer_size
    &&& w.matrix == start.matrix
    &&& w.sequences == start.sequences
    &&& w.values == start.values
    &&& w.selected == path
    &&& w.buffer == path_tokens(start.matrix, path)
    &&& w.constraint == (if path.len() % 2 == 0 { ConstraintMode::Row } else { ConstraintMode::Column })
    &&& w.current == (if path.len() == 0 { None } else { Some(path.last()) })
    &&& follows_pick_rules(path)
    &&& w.uploaded.len() == w.sequences.len()
    &&& forall|i: int| 0 <= i < w.sequences.len() ==> #[trigger] w.uploaded[i] == appears_in(w.buffer, w.sequences[i])
    &&& w.terminal == w.derived_terminal()
    &&& w.buffer.len() <= w.buffer_size
}

/// A sequence that appears in a buffer still appears once a token is added.
pub proof fn lemma_appears_after_push(buffer: Seq<Seq<char>>, sequence: Seq<Seq<char>>, token: Seq<char>)
    requires
        appears_in(buffer, sequence),
    ensures
        appears_in(buffer.push(token), sequence),
{
    let start = choose|start: int| window_matches(buffer, sequence, start);
    assert(buffer.push(token).subrange(start, start + sequence.len()) =~= buffer.subrange(start, start + sequence.len()));
    assert(window_matches(buffer.push(token), sequence, start));
}

/// Nothing appears in an empty buffer.
pub proof fn lemma_nothing_appears_in_empty(sequence: Seq<Seq<char>>)
    ensures
        !appears_in(Seq::empty(), sequence),
{
}

/// Adding a cell in the line that the rules call for, not used before, keeps a path by the rules.
#[verifier::spinoff_prover]
pub proof fn lemma_push_keeps_rules(before: Seq<Cell>, next: Cell)
    requires
        follows_pick_rules(before),
        before.len() >= 1,
        !before.contains(next),
        before.len() % 2 == 1 ==> next.1 == before.last().1,
        before.len() % 2 == 0 ==> next.0 == before.last().0,
    ensures
        follows_pick_rules(before.push(next)),
{
    let p = before.push(next);
    assert forall|i: int| 1 <= i < p.len() implies if i % 2 == 1 {
        (#[trigger] p[i]).1 == p[i - 1].1
    } else {
        p[i].0 == p[i - 1].0
    } by {
        if i < before.len() {
            assert(p[i] == before[i] && p[i - 1] == before[i - 1]);
        }
    }
    assert forall|i: int, j: int| 0 <= i < p.len() && 0 <= j < p.len() && i != j implies p[i] != p[j] by {
        if i < before.len() && j < before.len() {
            assert(p[i] == before[i] && p[j] == before[j]);
        } else if i < before.len() {
            assert(before.contains(before[i]));
        } else {
            assert(before.contains(before[j]));
        }
    }
    assert(p[0] == before[0]);
}

proof fn lemma_play_opening_state(start: EngineView)
    requires
        start.wf(),
        start.is_opening(),
    ensures
        reached_by(start, Seq::empty(), start),
{
    let path = Seq::<Cell>::empty();
    assert(start.buffer =~= path_tokens(start.matrix, path));
    assert forall|i: int| 0 <= i < start.sequences.len() implies #[trigger] start.uploaded[i] == appears_in(start.buffer, start.sequences[i]) by {
        lemma_nothing_appears_in_empty(start.sequences[i]);
    }
    assert(start.selected =~= path);
}

proof fn lemma_step_keeps_rules(start: EngineView, p: Seq<Cell>, w: EngineView, cell: Cell)
    requires
        reached_by(start, p, w),
        w.terminal is None,
        w.legal(cell),
    ensures
        follows_pick_rules(p.push(cell)),
        w.after_move(cell).selected == p.push(cell),
{
    let path = p.push(cell);
    assert(!w.selected.contains(cell));
    assert forall|i: int| 1 <= i < path.len() implies if i % 2 == 1 {
        (#[trigger] path[i]).1 == path[i - 1].1
    } else {
        path[i].0 == path[i - 1].0
    } by {
        if i < p.len() {
            assert(path[i] == p[i] && path[i - 1] == p[i - 1]);
        } else {
            assert(path[i] == cell && path[i - 1] == p.last());
        }
    }
    assert forall|i: int, j: int| 0 <= i < path.len() && 0 <= j < path.len() && i != j implies path[i] != path[j] by {
        if i < p.len() && j < p.len() {
            assert(path[i] == p[i] && path[j] == p[j]);
        } else if i < p.len() {
            assert(path[i] == p[i]);
            assert(p.contains(p[i]));
        } else {
            assert(path[j] == p[j]);
            assert(p.contains(p[j]));
        }
    }
    if p.len() == 0 {
        assert(path[0] == cell);
    } else {
        assert(path[0] == p[0]);
    }
    assert(w.after_move(cell).selected =~= path);
}

proof fn lemma_step_keeps_uploads(start: EngineView, p: Seq<Cell>, w: EngineView, cell: Cell)
    requires
        reached_by(start, p, w),
        w.terminal is None,
        w.legal(cell),
    ensures
        w.after_move(cell).buffer == path_tokens(start.matrix, p.push(cell)),
        forall|i: int| 0 <= i < w.sequences.len() ==> #[trigger] w.after_move(cell).uploaded[i]
            == appears_in(w.after_move(cell).buffer, w.sequences[i]),
{
    let next = w.after_move(cell);
    assert(next.buffer =~= path_tokens(start.matrix, p.push(cell)));
    assert forall|i: int| 0 <= i < w.sequences.len() implies #[trigger] next.uploaded[i] == appears_in(next.buffer, w.sequences[i]) by {
        if appears_in(w.buffer, w.sequences[i]) {
            lemma_appears_after_push(w.buffer, w.sequences[i], w.matrix[cell.0 as int][cell.1 as int]);
        }
    }
}

#[verifier::spinoff_prover]
#[verifier::rlimit(40)]
proof fn lemma_step(start: EngineView, p: Seq<Cell>, w: EngineView, cell: Cell)
    requires
        reached_by(start, p, w),
        w.terminal is None,
        w.legal(cell),
    ensures
        reached_by(start, p.push(cell), w.after_move(cell)),
{
    let next = w.after_move(cell);
    lemma_after_move_wf(w, cell);
    lemma_step_keeps_rules(start, p, w, cell);
    lemma_step_keeps_uploads(start, p, w, cell);
    crate::engine::lemma_derived_ignores_terminal(next, None);
}

pub(crate) proof fn lemma_play_from_opening(start: EngineView, path: Seq<Cell>)
    requires
        start.wf(),
        start.is_opening(),
        play(start, path) is Some,
    ensures
        reached_by(start, path, play(start, path)->0),
    decreases path.len(),
{
    if path.len() == 0 {
        lemma_play_opening_state(start);
        assert(path =~= Seq::<Cell>::empty());
    } else {
        let p = path.drop_last();
        let cell = path.last();
        lemma_play_from_opening(start, p);
        let w = play(start, p)->0;
        assert(p.push(cell) =~= path);
        assert(play(start, path) == Some(w.after_move(cell)));
        lemma_step(start, p, w, cell);
    }
}

/// In a run begun by `GameEngine::new`, every accepted series of picks starts
/// in the top row, alternates between the column and the row of the previous
/// pick, and never uses a cell twice; the buffer holds the picked tokens in
/// order and never grows past its size.
pub proof fn law_accepted_picks_follow_rules(start: EngineView, path: Seq<Cell>)
    requires
        start.wf(),
        start.is_opening(),
        play(start, path) is Some,
    ensures
        follows_pick_rules(path),
        play(start, path)->0.selected == path,
        play(start, path)->0.buffer == path_tokens(start.matrix, path),
        play(start, path)->0.buffer.len() <= start.buffer_size,
        play(start, path)->0.wf(),
{
    lemma_play_from_opening(start, path);
}

/// In a run begun by `GameEngine::new`, a daemon sequence is uploaded exactly
/// when its tokens appear contiguously in the buffer, so several daemons,
/// overlapping ones too, can upload in one run.
pub proof fn law_uploaded_iff_in_buffer(start: EngineView, path: Seq<Cell>, i: int)
    requires
        start.wf(),
        start.is_opening(),
        play(start, path) is Some,
        0 <= i < start.sequences.len(),
    ensures
        play(start, path)->0.uploaded[i] == appears_in(play(start, path)->0.buffer, start.sequences[i]),
{
    lemma_play_from_opening(start, path);
}

/// In a run begun by `GameEngine::new`, a run that is not over has room in
/// the buffer and a legal cell to pick, and its terminal reason is the one
/// that its state calls for.
pub proof fn law_open_run_can_continue(start: EngineView, path: Seq<Cell>)
    requires
        start.wf(),
        start.is_opening(),
        play(start, path) is Some,
    ensures
        play(start, path)->0.terminal == play(start, path)->0.derived_terminal(),
        play(start, path)->0.terminal is None ==> play(start, path)->0.buffer.len() < start.buffer_size
            && play(start, path)->0.has_legal(),
{
    lemma_play_from_opening(start, path);
}

/// A run that is over accepts no pick.
pub proof fn law_finished_run_accepts_nothing(v: EngineView, path: Seq<Cell>)
    requires
        v.terminal is Some,
        path.len() > 0,
    ensures
        play(v, path) is None,
    decreases path.len(),
{
    if path.len() > 1 {
        law_finished_run_accepts_nothing(v, path.drop_last());
    } else {
        assert(play(v, path.drop_last()) == Some(v));
    }
}

/// More uploaded flags never give a lower total.
pub proof fn lemma_total_grows_with_flags(a: Seq<bool>, b: Seq<bool>, values: Seq<u32>, k: int)
    requires
        k <= a.len(),
        k <= b.len(),
        forall|i: int| 0 <= i < k ==> a[i] ==> b[i],
    ensures
        uploaded_total(a, values, k) <= uploaded_total(b, values, k),
    decreases k,
{
    if k > 0 {
        lemma_total_grows_with_flags(a, b, values, k - 1);
    }
}

/// A pick never undoes an upload and never lowers the score.
pub proof fn law_pick_keeps_uploads(v: EngineView, cell: Cell)
    ensures
        v.after_move(cell).uploaded.len() == v.uploaded.len(),
        forall|i: int| 0 <= i < v.uploaded.len() && v.uploaded[i] ==> #[trigger] v.after_move(cell).uploaded[i],
        v.after_move(cell).score() >= v.score(),
{
    let w = v.after_move(cell);
    let k = if v.uploaded.len() < v.values.len() { v.uploaded.len() as int } else { v.values.len() as int };
    lemma_total_grows_with_flags(v.uploaded, w.uploaded, v.values, k);
}

/// A timeout is final: an update keeps it, and a timed-out run accepts no pick.
pub proof fn law_timeout_is_final(v: EngineView, path: Seq<Cell>)
    requires
        v.terminal == Some(TerminalReason::OutOfTime),
    ensures
        v.settled_terminal() == Some(TerminalReason::OutOfTime),
        path.len() > 0 ==> play(v, path) is None,
{
    if path.len() > 0 {
        law_finished_run_accepts_nothing(v, path);
    }
}

/// A pick that `GameEngine::apply_move` accepts extends the run: where the
/// state is the one that `path` reaches, the state after the pick is the one
/// that `path` with the pick reaches. So a chain of accepted picks from
/// `GameEngine::new` ends in the state that `play` gives for their cells.
pub proof fn law_accepted_pick_extends_run(start: EngineView, path: Seq<Cell>, cell: Cell)
    requires
        play(start, path) is Some,
        play(start, path)->0.terminal is None,
        play(start, path)->0.legal(cell),
    ensures
        play(start, path.push(cell)) == Some(play(start, path)->0.after_move(cell)),
{
    assert(path.push(cell).drop_last() =~= path);
}

/// A daemon can still upload exactly when it is empty or some `remaining`
/// tokens or fewer, added to the buffer, make its tokens appear contiguously.
pub proof fn law_can_still_upload_means_completable(buffer: Seq<Seq<char>>, sequence: Seq<Seq<char>>, remaining: int)
    requires
        remaining >= 0,
    ensures
        can_still_upload(buffer, sequence, remaining) <==> (sequence.len() == 0
            || exists|more: Seq<Seq<char>>| more.len() <= remaining && #[trigger] appears_in(buffer + more, sequence)),
{
    let b = buffer.len() as int;
    let l = sequence.len() as int;
    lemma_suffix_progress(buffer, sequence);
    let sp = suffix_progress(buffer, sequence) as int;
    if can_still_upload(buffer, sequence, remaining) && l > 0 {
        if appears_in(buffer, sequence) {
            let start = choose|start: int| window_matches(buffer, sequence, start);
            let more = Seq::<Seq<char>>::empty();
            assert(buffer + more =~= buffer);
            assert(appears_in(buffer + more, sequence));
        } else if l <= remaining {
            let more = sequence;
            assert((buffer + more).subrange(b, b + l) =~= sequence);
            assert(window_matches(buffer + more, sequence, b));
            assert(appears_in(buffer + more, sequence));
        } else {
            let more = sequence.subrange(sp, l);
            assert(overlaps(buffer, sequence, sp));
            assert((buffer + more).subrange(b - sp, b - sp + l) =~= sequence) by {
                assert forall|i: int| 0 <= i < l implies #[trigger] (buffer + more).subrange(b - sp, b - sp + l)[i] == sequence[i] by {
                    if i < sp {
                        assert(buffer.subrange(b - sp, b)[i] == sequence.subrange(0, sp)[i]);
                    }
                }
            }
            assert(window_matches(buffer + more, sequence, b - sp));
            assert(appears_in(buffer + more, sequence));
        }
    }
    if l > 0 && exists|more: Seq<Seq<char>>| more.len() <= remaining && #[trigger] appears_in(buffer + more, sequence) {
        let more = choose|more: Seq<Seq<char>>| more.len() <= remaining && #[trigger] appears_in(buffer + more, sequence);
        let full = buffer + more;
        let start = choose|start: int| window_matches(full, sequence, start);
        if start + l <= b {
            assert(full.subrange(start, start + l) =~= buffer.subrange(start, start + l));
            assert(window_matches(buffer, sequence, start));
        } else if start < b {
            let k = b - start;
            assert(buffer.subrange(b - k, b) =~= sequence.subrange(0, k)) by {
                assert forall|i: int| 0 <= i < k implies #[trigger] buffer.subrange(b - k, b)[i] == sequence.subrange(0, k)[i] by {
                    assert(full.subrange(start, start + l)[i] == sequence[i]);
                    assert(full[start + i] == buffer[start + i]);
                }
            }
            assert(overlaps(buffer, sequence, k));
        }
    }
}

/// Uploading every daemon ends a run for that reason, whatever room the
/// buffer has left; a run ends as uploaded only where every daemon is; and it
/// ends for a full buffer only with a daemon still missing. A timeout aside,
/// the same holds after every pick.
pub proof fn law_full_upload_ends_the_run(v: EngineView, cell: Cell)
    ensures
        v.all_uploaded() ==> v.derived_terminal() == Some(TerminalReason::AllUploaded),
        v.derived_terminal() == Some(TerminalReason::AllUploaded) ==> v.all_uploaded(),
        v.derived_terminal() == Some(TerminalReason::BufferFull)
            ==> !v.all_uploaded() && v.buffer.len() >= v.buffer_size,
        v.terminal != Some(TerminalReason::OutOfTime) && v.after_move(cell).all_uploaded()
            ==> v.after_move(cell).terminal == Some(TerminalReason::AllUploaded),
        v.after_move(cell).terminal == Some(TerminalReason::BufferFull)
            ==> !v.after_move(cell).all_uploaded() && v.after_move(cell).buffer.len() >= v.buffer_size,
{
    let w = v.after_move(cell);
    let picked = EngineView { terminal: v.terminal, ..w };
    assert(w == EngineView { terminal: picked.settled_terminal(), ..picked });
    assert(picked.all_uploaded() == w.all_uploaded());
    assert(picked.buffer == w.buffer);
}

/// A run of accepted picks adds one token to the buffer per pick.
pub proof fn lemma_play_length(start: EngineView, path: Seq<Cell>)
    requires
        play(start, path) is Some,
    ensures
        play(start, path)->0.buffer.len() == start.buffer.len() + path.len(),
    decreases path.len(),
{
    if path.len() > 0 {
        lemma_play_length(start, path.drop_last());
    }
}

} // verus!
