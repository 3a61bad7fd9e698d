//! Path expressions: field names separated by dots, each with an optional
//! index in square brackets, as in `test.parallel.matrix[0].MONGO_VERSION`.

use crate::text::{chars_of, digit, is_digit, pieces_view, split, split_on, string_of};
use vstd::prelude::*;

verus! {

/// One step of a path.
#[derive(Debug, Clone, PartialEq, Eq)]
pub enum PathStep {
    /// `name`: the value under the key `name`.
    Field(String),
    /// `name[index]`: the element at `index` of the sequence under `name`.
    Indexed(String, usize),
}

impl View for PathStep {
    type V = (Seq<char>, Option<nat>);

    /// The field name, and the index where the step has one.
    open spec fn view(&self) -> (Seq<char>, Option<nat>) {
        match self {
            PathStep::Field(name) => (name@, None),
            PathStep::Indexed(name, index) => (name@, Some(*index as nat)),
        }
    }
}

/// The steps that a list of parsed steps holds.
pub open spec fn steps_view(steps: Seq<PathStep>) -> Seq<(Seq<char>, Option<nat>)> {
    steps.map_values(|s: PathStep| s@)
}

/// How many digits stand in a row just before position `end`.
pub open spec fn digits_before(s: Seq<char>, end: int) -> nat
    decreases end,
{
    if 0 < end <= s.len() && is_digit(s[end - 1]) {
        1 + digits_before(s, end - 1)
    } else {
        0
    }
}

/// The number that `c` stands for.
pub open spec fn digit_value(c: char) -> nat {
    if is_digit(c) {
        (c as u32 - '0' as u32) as nat
    } else {
        0
    }
}

/// The number that a run of decimal digits stands for.
pub open spec fn decimal(digits: Seq<char>) -> nat
    decreases digits.len(),
{
    if digits.len() == 0 {
        0
    } else {
        10 * decimal(digits.drop_last()) + digit_value(digits.last())
    }
}

/// The field name and the index of an array step: the step ends in `[`,
/// one or more digits and `]`, and the text before that `[`, which must
/// not be empty, is the field name, whatever characters it holds.
pub open spec fn array_step(step: Seq<char>) -> Option<(Seq<char>, nat)> {
    let n = step.len() as int;
    if n >= 1 && step[n - 1] == ']' {
        let digits = digits_before(step, n - 1) as int;
        let open = n - 2 - digits;
        if digits >= 1 && open >= 1 && step[open] == '[' {
            Some((step.take(open), decimal(step.subrange(open + 1, n - 1))))
        } else {
            None
        }
    } else {
        None
    }
}

/// What one piece of a path means: an array step where it has that form,
/// else the whole piece as a field name.
pub open spec fn step_of(step: Seq<char>) -> (Seq<char>, Option<nat>) {
    match array_step(step) {
        Some((name, index)) => (name, Some(index)),
        None => (step, None),
    }
}

/// The steps of a path: its pieces between dots, each read by `step_of`.
pub open spec fn path_steps(path: Seq<char>) -> Seq<(Seq<char>, Option<nat>)> {
    split_on(path, '.').map_values(|piece: Seq<char>| step_of(piece))
}

/// An index as a machine word holds it: one too large for the word is held
/// as the largest word.
pub open spec fn clamp_index(index: nat) -> nat {
    if index > usize::MAX {
        usize::MAX as nat
    } else {
        index
    }
}

/// A step with its index, if any, clamped.
pub open spec fn clamp_step(step: (Seq<char>, Option<nat>)) -> (Seq<char>, Option<nat>) {
    match step.1 {
        Some(index) => (step.0, Some(clamp_index(index))),
        None => step,
    }
}

/// Where the run of digits that ends just before `end` begins.
fn digits_start(chars: &Vec<char>, end: usize) -> (start: usize)
    requires
        end <= chars@.len(),
    ensures
        start <= end,
        end - start == digits_before(chars@, end as int),
        forall|k: int| start <= k < end ==> is_digit(chars@[k]),
{
    let mut k: usize = end;
    while k > 0 && digit(chars[k - 1])
        invariant
            k <= end <= chars@.len(),
            digits_before(chars@, end as int) == (end - k) + digits_before(chars@, k as int),
            forall|j: int| k <= j < end ==> is_digit(chars@[j]),
        decreases k,
    {
        k -= 1;
    }
    k
}

/// Reads the digits `chars[from..to]` as a number, clamped to a machine word.
fn decimal_clamped(chars: &Vec<char>, from: usize, to: usize) -> (r: usize)
    requires
        from <= to <= chars@.len(),
        forall|k: int| from <= k < to ==> is_digit(chars@[k]),
    ensures
        r == clamp_index(decimal(chars@.subrange(from as int, to as int))),
{
    let mut value: usize = 0;
    let mut saturated = false;
    let mut i: usize = from;
    while i < to
        invariant
            from <= i <= to <= chars@.len(),
            forall|k: int| from <= k < to ==> is_digit(chars@[k]),
            !saturated ==> value == decimal(chars@.subrange(from as int, i as int)),
            saturated ==> decimal(chars@.subrange(from as int, i as int)) > usize::MAX,
        decreases to - i,
    {
        let c = chars[i];
        let d: usize = (c as u32 - '0' as u32) as usize;
        proof {
            let longer = chars@.subrange(from as int, i + 1);
            assert(longer.drop_last() =~= chars@.subrange(from as int, i as int));
            assert(longer.last() == c);
            assert(d == digit_value(c));
        }
        if !saturated {
            match value.checked_mul(10) {
                Some(tenfold) => match tenfold.checked_add(d) {
                    Some(next) => {
                        value = next;
                    },
                    None => {
                        saturated = true;
                    },
                },
                None => {
                    saturated = true;
                },
            }
        }
        i += 1;
    }
    if saturated {
        usize::MAX
    } else {
        value
    }
}

/// Reads one piece of a path.
pub(crate) fn step_of_chars(step: &Vec<char>) -> (r: PathStep)
    ensures
        r@ == clamp_step(step_of(step@)),
{
    let n = step.len();
    if n >= 1 && step[n - 1] == ']' {
        let digits = digits_start(step, n - 1);
        if digits < n - 1 && digits >= 2 && step[digits - 1] == '[' {
            let open = digits - 1;
            let field = string_of(step, 0, open);
            let index = decimal_clamped(step, digits, n - 1);
            assert(step@.take(open as int) =~= step@.subrange(0, open as int));
            return PathStep::Indexed(field, index);
        }
    }
    let field = string_of(step, 0, n);
    assert(step@.subrange(0, n as int) =~= step@);
    PathStep::Field(field)
}

/// Reads one piece of a path, given as text.
pub fn parse_step(step: &str) -> (r: PathStep)
    ensures
        r@ == clamp_step(step_of(step@)),
{
    let chars = chars_of(step);
    step_of_chars(&chars)
}

/// Reads a path expression into its steps.
pub fn parse_path(path: &str) -> (steps: Vec<PathStep>)
    ensures
        steps_view(steps@) == path_steps(path@).map_values(|s: (Seq<char>, Option<nat>)| clamp_step(s)),
{
    let chars = chars_of(path);
    let pieces = split(&chars, '.');
    let mut steps: Vec<PathStep> = Vec::new();
    let mut i: usize = 0;
    while i < pieces.len()
        invariant
            i <= pieces@.len(),
            pieces_view(pieces@) == split_on(path@, '.'),
            steps@.len() == i,
            forall|k: int| 0 <= k < i ==> (#[trigger] steps@[k])@ == clamp_step(step_of(pieces@[k]@)),
        decreases pieces@.len() - i,
    {
        let step = step_of_chars(&pieces[i]);
        steps.push(step);
        i += 1;
    }
    proof {
        let want = path_steps(path@).map_values(|s: (Seq<char>, Option<nat>)| clamp_step(s));
        assert(steps_view(steps@).len() == want.len());
        assert forall|k: int| 0 <= k < want.len() implies steps_view(steps@)[k] == want[k] by {
            assert(pieces_view(pieces@)[k] == pieces@[k]@);
        }
        assert(steps_view(steps@) =~= want);
    }
    steps
}

/// The character that stands for a number below ten.
pub open spec fn digit_char(d: nat) -> char {
    if d == 0 {
        '0'
    } else if d == 1 {
        '1'
    } else if d == 2 {
        '2'
    } else if d == 3 {
        '3'
    } else if d == 4 {
        '4'
    } else if d == 5 {
        '5'
    } else if d == 6 {
        '6'
    } else if d == 7 {
        '7'
    } else if d == 8 {
        '8'
    } else {
        '9'
    }
}

/// A number in decimal digits, without leading zeros.
pub open spec fn digits_of(n: nat) -> Seq<char>
    decreases n,
{
    if n < 10 {
        seq![digit_char(n)]
    } else {
        digits_of(n / 10).push(digit_char(n % 10))
    }
}

/// The digits of a number are digits, and they stand for that number.
pub proof fn lemma_digits_of(n: nat)
    ensures
        digits_of(n).len() >= 1,
        forall|i: int| 0 <= i < digits_of(n).len() ==> is_digit(#[trigger] digits_of(n)[i]),
        decimal(digits_of(n)) == n,
    decreases n,
{
    if n < 10 {
        assert(digits_of(n).drop_last() =~= Seq::<char>::empty());
        assert(decimal(digits_of(n).drop_last()) == 0);
        assert(digit_value(digit_char(n)) == n);
    } else {
        lemma_digits_of(n / 10);
        assert(digits_of(n).drop_last() =~= digits_of(n / 10));
        assert(digit_value(digit_char(n % 10)) == n % 10);
    }
}

/// `n` in decimal digits.
pub fn decimal_text(n: usize) -> (s: String)
    ensures
        s@ == digits_of(n as nat),
    decreases n,
{
    let mut s = if n >= 10 {
        decimal_text(n / 10)
    } else {
        String::new()
    };
    let d = n % 10;
    let c = if d == 0 {
        '0'
    } else if d == 1 {
        '1'
    } else if d == 2 {
        '2'
    } else if d == 3 {
        '3'
    } else if d == 4 {
        '4'
    } else if d == 5 {
        '5'
    } else if d == 6 {
        '6'
    } else if d == 7 {
        '7'
    } else if d == 8 {
        '8'
    } else {
        '9'
    };
    s.push(c);
    assert(n < 10 ==> s@ =~= seq![digit_char(n as nat)]);
    s
}

/// A run of digits with no digit before it is the whole run before its end.
pub proof fn lemma_digits_before(s: Seq<char>, start: int, end: int)
    requires
        0 <= start <= end <= s.len(),
        forall|k: int| start <= k < end ==> is_digit(#[trigger] s[k]),
        start == 0 || !is_digit(s[start - 1]),
    ensures
        digits_before(s, end) == end - start,
    decreases end - start,
{
    if start < end {
        lemma_digits_before(s, start, end - 1);
    }
}

/// A name with an index in brackets behind it reads as that name and that
/// index, whatever the name holds.
pub proof fn lemma_step_of_indexed(name: Seq<char>, index: nat)
    requires
        name.len() > 0,
    ensures
        step_of(name.push('[') + digits_of(index).push(']')) == (name, Some(index)),
{
    let digits = digits_of(index);
    let step = name.push('[') + digits.push(']');
    let n = step.len() as int;
    let open = name.len() as int;
    lemma_digits_of(index);
    assert(step[n - 1] == ']');
    assert(step[open] == '[');
    assert forall|k: int| open + 1 <= k < n - 1 implies is_digit(#[trigger] step[k]) by {
        assert(step[k] == digits[k - open - 1]);
    }
    lemma_digits_before(step, open + 1, n - 1);
    assert(step.take(open) =~= name);
    assert(step.subrange(open + 1, n - 1) =~= digits);
}

/// A piece that does not end in a closing bracket is a field name.
pub proof fn lemma_step_of_plain(name: Seq<char>)
    requires
        name.len() == 0 || name.last() != ']',
    ensures
        step_of(name) == (name, None::<nat>),
{
}

/// The steps of two paths with a dot between them are the steps of the
/// first and then the steps of the second.
pub proof fn lemma_path_steps_joined(a: Seq<char>, b: Seq<char>)
    ensures
        path_steps(a.push('.') + b) == path_steps(a) + path_steps(b),
{
    crate::text::lemma_split_joined(a, b, '.');
    assert(path_steps(a.push('.') + b) =~= path_steps(a) + path_steps(b));
}

} // verus!
