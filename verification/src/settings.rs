//! The setup screen's settings: matrix size, buffer size, daemon count, token
//! variety and time limit, each stepped within its bounds, with the buffer
//! size kept inside the bounds that the other settings allow.

use vstd::prelude::*;
use crate::generator::{sequence_lengths, sequence_lengths_for};
use crate::text::{decimal_text, u64_text, usize_text};

verus! {

/// How many time limits the setup screen offers.
pub const TIME_LIMIT_OPTION_COUNT: usize = 5;

/// The time limit at `index` among the offered ones, in seconds (0: none).
pub open spec fn time_limit_at(index: int) -> u64 {
    if index == 0 {
        0
    } else if index == 1 {
        15
    } else if index == 2 {
        30
    } else if index == 3 {
        45
    } else {
        60
    }
}

/// The time limit at `index` among the offered ones, in seconds (0: none).
pub fn time_limit_option(index: usize) -> (seconds: u64)
    requires
        index < TIME_LIMIT_OPTION_COUNT,
    ensures
        seconds == time_limit_at(index as int),
{
    match index {
        0 => 0,
        1 => 15,
        2 => 30,
        3 => 45,
        _ => 60,
    }
}

/// A setting of the setup screen.
#[derive(Clone, Copy, Debug, PartialEq, Eq, Structural)]
pub enum Field {
    MatrixSize,
    BufferSize,
    Daemons,
    TokenVariety,
    TimeLimit,
}

impl Field {
    /// The setting's name on screen.
    pub fn label(self) -> (text: &'static str)
        ensures
            text@ == match self {
                Field::MatrixSize => "Matrix Size"@,
                Field::BufferSize => "Buffer Size"@,
                Field::Daemons => "Daemons"@,
                Field::TokenVariety => "Token Variety"@,
                Field::TimeLimit => "Time Limit"@,
            },
    {
        match self {
            Field::MatrixSize => "Matrix Size",
            Field::BufferSize => "Buffer Size",
            Field::Daemons => "Daemons",
            Field::TokenVariety => "Token Variety",
            Field::TimeLimit => "Time Limit",
        }
    }
}

/// The largest of a list of lengths, 0 for none.
pub open spec fn seq_max(s: Seq<usize>) -> int
    decreases s.len(),
{
    if s.len() == 0 {
        0
    } else if s.last() > seq_max(s.drop_last()) {
        s.last() as int
    } else {
        seq_max(s.drop_last())
    }
}

/// The sum of a list of lengths.
pub open spec fn seq_sum(s: Seq<usize>) -> int
    decreases s.len(),
{
    if s.len() == 0 {
        0
    } else {
        seq_sum(s.drop_last()) + s.last()
    }
}

/// The buffer sizes allowed for `sequences` daemons on a `matrix_size` matrix:
/// from the longest daemon up to the total daemon length, capped by the cells
/// a path can visit and by 16, and never below the longest daemon.
pub open spec fn buffer_bounds(matrix_size: int, sequences: int) -> (int, int) {
    let lengths = sequence_lengths(sequences, usize::MAX as int);
    let longest = if lengths.len() == 0 { 1 } else { seq_max(lengths) };
    let total = seq_sum(lengths);
    let squared = if matrix_size * matrix_size > usize::MAX { usize::MAX as int } else { matrix_size * matrix_size };
    let path_cap = if squared <= 1 { 1 } else { squared - 1 };
    let capped = if total <= path_cap { total } else { path_cap };
    let capped = if capped <= 16 { capped } else { 16 };
    (longest, if capped >= longest { capped } else { longest })
}

/// The largest of lengths that are at most `bound` is at most `bound`.
proof fn lemma_seq_max_at_most(s: Seq<usize>, bound: int)
    requires
        bound >= 0,
        forall|i: int| 0 <= i < s.len() ==> #[trigger] s[i] <= bound,
    ensures
        0 <= seq_max(s) <= bound,
    decreases s.len(),
{
    if s.len() > 0 {
        lemma_seq_max_at_most(s.drop_last(), bound);
    }
}

/// The allowed buffer sizes form a range within 0 to 16.
pub proof fn lemma_buffer_bounds_small(matrix_size: int, sequences: int)
    requires
        sequences >= 0,
    ensures
        0 <= buffer_bounds(matrix_size, sequences).0 <= buffer_bounds(matrix_size, sequences).1 <= 16,
{
    crate::generator::lemma_lengths_small(sequences, usize::MAX as int);
    lemma_seq_max_at_most(sequence_lengths(sequences, usize::MAX as int), 5);
}

/// The buffer sizes allowed for `sequences` daemons on a `matrix_size` matrix.
pub fn buffer_bounds_for(matrix_size: usize, sequences: usize) -> (bounds: (usize, usize))
    ensures
        bounds.0 == buffer_bounds(matrix_size as int, sequences as int).0,
        bounds.1 == buffer_bounds(matrix_size as int, sequences as int).1,
        bounds.0 <= bounds.1,
        bounds.1 <= 16,
{
    let lengths = sequence_lengths_for(sequences, usize::MAX);
    proof {
        crate::generator::lemma_lengths_small(sequences as int, usize::MAX as int);
    }
    let mut longest: usize = 0;
    let mut total: usize = 0;
    let mut i: usize = 0;
    while i < lengths.len()
        invariant
            i <= lengths@.len(),
            lengths@ == sequence_lengths(sequences as int, usize::MAX as int),
            lengths@.len() <= 5,
            forall|j: int| 0 <= j < lengths@.len() ==> 2 <= #[trigger] lengths@[j] <= 5,
            longest == seq_max(lengths@.take(i as int)),
            total == seq_sum(lengths@.take(i as int)),
            longest <= 5,
            total <= 5 * i,
        decreases lengths@.len() - i,
    {
        assert(lengths@.take(i + 1).drop_last() =~= lengths@.take(i as int));
        if lengths[i] > longest {
            longest = lengths[i];
        }
        total = total + lengths[i];
        i += 1;
    }
    assert(lengths@.take(i as int) =~= lengths@);
    if lengths.len() == 0 {
        longest = 1;
    }
    let squared = match matrix_size.checked_mul(matrix_size) {
        Some(value) => value,
        None => usize::MAX,
    };
    let path_cap = if squared <= 1 { 1 } else { squared - 1 };
    let capped = if total <= path_cap { total } else { path_cap };
    let capped = if capped <= 16 { capped } else { 16 };
    (longest, if capped >= longest { capped } else { longest })
}

/// Whether `value + delta` lies in `min..=max`, each bound and `value` read as 32-bit numbers.
pub fn can_step(value: usize, min: usize, max: usize, delta: i32) -> (r: bool)
    requires
        i32::MIN <= (value as i32) + delta <= i32::MAX,
    ensures
        r == ((min as i32) <= (value as i32) + delta <= (max as i32)),
{
    let next = value as i32 + delta;
    min as i32 <= next && next <= max as i32
}

/// The values chosen on the setup screen.
#[derive(Clone, Debug)]
pub struct Settings {
    pub matrix_size: usize,
    pub buffer_size: usize,
    pub time_limit_index: usize,
    pub sequences: usize,
    pub token_variety: usize,
}

impl Default for Settings {
    /// A 5 by 5 matrix, two daemons, six tokens, 30 seconds, and the largest buffer they allow.
    fn default() -> (settings: Self)
        ensures
            settings.matrix_size == 5,
            settings.sequences == 2,
            settings.buffer_size == buffer_bounds(5, 2).1,
            settings.time_limit_index == 2,
            settings.token_variety == 6,
            settings.within_bounds(),
    {
        let sequences: usize = 2;
        let bounds = buffer_bounds_for(5, sequences);
        Settings { matrix_size: 5, buffer_size: bounds.1, time_limit_index: 2, sequences, token_variety: 6 }
    }
}

impl Settings {
    /// The current value of `field`, as the setup screen reads it: cut to 32 bits.
    pub open spec fn field_value(self, field: Field) -> int {
        match field {
            Field::MatrixSize => (self.matrix_size as i32) as int,
            Field::BufferSize => (self.buffer_size as i32) as int,
            Field::Daemons => (self.sequences as i32) as int,
            Field::TokenVariety => (self.token_variety as i32) as int,
            Field::TimeLimit => (self.time_limit_index as i32) as int,
        }
    }

    /// Every setting lies within its bounds, the buffer size within those that
    /// the matrix size and daemon count allow.
    pub open spec fn within_bounds(self) -> bool {
        &&& 3 <= self.matrix_size <= 9
        &&& 1 <= self.sequences <= 5
        &&& 2 <= self.token_variety <= 10
        &&& self.time_limit_index < TIME_LIMIT_OPTION_COUNT
        &&& buffer_bounds(self.matrix_size as int, self.sequences as int).0 <= self.buffer_size
        &&& self.buffer_size <= buffer_bounds(self.matrix_size as int, self.sequences as int).1
    }

    /// `field` can move by `delta` within its bounds.
    pub open spec fn may_step(self, field: Field, delta: int) -> bool {
        let next = self.field_value(field) + delta;
        match field {
            Field::MatrixSize => 3 <= next <= 9,
            Field::BufferSize => buffer_bounds(self.matrix_size as int, self.sequences as int).0 <= next
                <= buffer_bounds(self.matrix_size as int, self.sequences as int).1,
            Field::Daemons => 1 <= next <= 5,
            Field::TokenVariety => 2 <= next <= 10,
            Field::TimeLimit => 0 <= next < TIME_LIMIT_OPTION_COUNT,
        }
    }

    /// `buffer_size` brought inside the bounds for this matrix size and daemon count.
    pub open spec fn clamped_buffer(self) -> usize {
        let bounds = buffer_bounds(self.matrix_size as int, self.sequences as int);
        if self.buffer_size < bounds.0 {
            bounds.0 as usize
        } else if self.buffer_size > bounds.1 {
            bounds.1 as usize
        } else {
            self.buffer_size
        }
    }

    /// The settings once `field` has moved by `delta` (and the buffer size is
    /// clamped again where the matrix size or the daemon count moved).
    pub open spec fn stepped(self, field: Field, delta: int) -> Settings {
        let next = (self.field_value(field) + delta) as usize;
        match field {
            Field::MatrixSize => { let s = Settings { matrix_size: next, ..self }; Settings { buffer_size: s.clamped_buffer(), ..s } },
            Field::BufferSize => Settings { buffer_size: next, ..self },
            Field::Daemons => { let s = Settings { sequences: next, ..self }; Settings { buffer_size: s.clamped_buffer(), ..s } },
            Field::TokenVariety => Settings { token_variety: next, ..self },
            Field::TimeLimit => Settings { time_limit_index: next, ..self },
        }
    }

    /// Moves `field` by `delta` where it stays in bounds; says whether it moved.
    pub fn step(&mut self, field: Field, delta: i32) -> (moved: bool)
        requires
            i32::MIN <= old(self).field_value(field) + delta <= i32::MAX,
        ensures
            moved == (delta != 0 && old(self).may_step(field, delta as int)),
            moved ==> *final(self) == old(self).stepped(field, delta as int),
            !moved ==> *final(self) == *old(self),
    {
        if delta == 0 || !self.can_step(field, delta) {
            return false;
        }
        match field {
            Field::MatrixSize => {
                self.matrix_size = (self.matrix_size as i32 + delta) as usize;
                self.clamp_buffer_size();
            },
            Field::BufferSize => {
                self.buffer_size = (self.buffer_size as i32 + delta) as usize;
            },
            Field::Daemons => {
                self.sequences = (self.sequences as i32 + delta) as usize;
                self.clamp_buffer_size();
            },
            Field::TokenVariety => {
                self.token_variety = (self.token_variety as i32 + delta) as usize;
            },
            Field::TimeLimit => {
                self.time_limit_index = (self.time_limit_index as i32 + delta) as usize;
            },
        }
        true
    }

    /// Whether `field` can move by `delta` within its bounds.
    pub fn can_step(&self, field: Field, delta: i32) -> (r: bool)
        requires
            i32::MIN <= self.field_value(field) + delta <= i32::MAX,
        ensures
            r == self.may_step(field, delta as int),
    {
        match field {
            Field::MatrixSize => can_step(self.matrix_size, 3, 9, delta),
            Field::BufferSize => {
                let (min, max) = self.buffer_bounds();
                can_step(self.buffer_size, min, max, delta)
            },
            Field::Daemons => can_step(self.sequences, 1, 5, delta),
            Field::TokenVariety => can_step(self.token_variety, 2, 10, delta),
            Field::TimeLimit => {
                let next = self.time_limit_index as i32 + delta;
                0 <= next && next < TIME_LIMIT_OPTION_COUNT as i32
            },
        }
    }

    /// The value of `field` as the setup screen shows it.
    pub open spec fn value_text(self, field: Field) -> Seq<char> {
        match field {
            Field::MatrixSize => decimal_text(self.matrix_size as nat) + "x"@ + decimal_text(self.matrix_size as nat),
            Field::BufferSize => decimal_text(self.buffer_size as nat),
            Field::Daemons => decimal_text(self.sequences as nat),
            Field::TokenVariety => decimal_text(self.token_variety as nat),
            Field::TimeLimit => if time_limit_at(self.time_limit_index as int) == 0 {
                "No Limit"@
            } else {
                decimal_text(time_limit_at(self.time_limit_index as int) as nat) + "s"@
            },
        }
    }

    /// The value of `field` as the setup screen shows it.
    pub fn value_label(&self, field: Field) -> (text: String)
        requires
            field == Field::TimeLimit ==> self.time_limit_index < TIME_LIMIT_OPTION_COUNT,
        ensures
            text@ == self.value_text(field),
    {
        match field {
            Field::MatrixSize => {
                let mut text = usize_text(self.matrix_size);
                text.append("x");
                text.append(usize_text(self.matrix_size).as_str());
                text
            },
            Field::BufferSize => usize_text(self.buffer_size),
            Field::Daemons => usize_text(self.sequences),
            Field::TokenVariety => usize_text(self.token_variety),
            Field::TimeLimit => {
                let seconds = time_limit_option(self.time_limit_index);
                if seconds == 0 {
                    String::from_str("No Limit")
                } else {
                    let mut text = u64_text(seconds);
                    text.append("s");
                    text
                }
            },
        }
    }

    fn clamp_buffer_size(&mut self)
        ensures
            *final(self) == (Settings { buffer_size: old(self).clamped_buffer(), ..*old(self) }),
    {
        let (min, max) = self.buffer_bounds();
        if self.buffer_size < min {
            self.buffer_size = min;
        } else if self.buffer_size > max {
            self.buffer_size = max;
        }
    }

    fn buffer_bounds(&self) -> (bounds: (usize, usize))
        ensures
            bounds.0 == buffer_bounds(self.matrix_size as int, self.sequences as int).0,
            bounds.1 == buffer_bounds(self.matrix_size as int, self.sequences as int).1,
            bounds.0 <= bounds.1,
            bounds.1 <= 16,
    {
        buffer_bounds_for(self.matrix_size, self.sequences)
    }
}

/// Settings within their bounds stay within them through every step the
/// setup screen accepts: the stepped setting stays in its range, and the
/// buffer size is brought back inside the bounds that a new matrix size or
/// daemon count allows.
pub proof fn law_steps_stay_within_bounds(settings: Settings, field: Field, delta: int)
    requires
        settings.within_bounds(),
        settings.may_step(field, delta),
    ensures
        settings.stepped(field, delta).within_bounds(),
{
    let next = settings.stepped(field, delta);
    lemma_buffer_bounds_small(settings.matrix_size as int, settings.sequences as int);
    lemma_buffer_bounds_small(next.matrix_size as int, next.sequences as int);
    lemma_buffer_bounds_small((settings.field_value(field) + delta) as usize as int, settings.sequences as int);
    lemma_buffer_bounds_small(settings.matrix_size as int, (settings.field_value(field) + delta) as usize as int);
}

} // verus!
