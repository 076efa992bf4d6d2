//! Run options: which challenges to solve, budgets, and the algorithm.
use vstd::prelude::*;
use core::ops::RangeInclusive;

verus! {

/// Path finding algorithms.
#[derive(Debug, Clone, Copy, PartialEq, Eq, Structural)]
pub enum Algorithm {
    /// Generally time and space efficient, but suffers in the worst case.
    Heuristic,
    /// Tuned for worst-case performance.
    Robust,
}

/// Options of a run.
#[derive(Debug, Clone, Copy)]
pub struct Options {
    /// Only solve this challenge.
    pub challenge: Option<u8>,
    /// Stop before this many generations.
    pub max_generations: usize,
    /// Ignore moves this much worse than the current best estimate.
    pub max_pessimism: u16,
    /// Prefer a particular algorithm.
    pub algorithm: Option<Algorithm>,
    /// Check the resulting path(s).
    pub check: bool,
}

/// The highest challenge number.
pub const LAST_CHALLENGE: u8 = 5;

impl Options {
    pub fn new(
        challenge: Option<u8>,
        max_generations: usize,
        max_pessimism: u16,
        algorithm: Option<Algorithm>,
        check: bool,
    ) -> (r: Self)
        ensures
            r.challenge == challenge,
            r.max_generations == max_generations,
            r.max_pessimism == max_pessimism,
            r.algorithm == algorithm,
            r.check == check,
    {
        Options { challenge, max_generations, max_pessimism, algorithm, check }
    }

    /// The challenges to solve: the one asked for, or all of them.
    pub fn challenges(&self) -> (r: RangeInclusive<u8>)
        ensures
            self.challenge is Some ==> r@.start == self.challenge->0 && r@.end == self.challenge->0,
            self.challenge is None ==> r@.start == 0 && r@.end == LAST_CHALLENGE,
            !r@.exhausted,
    {
        match self.challenge {
            Some(only) => RangeInclusive::new(only, only),
            None => RangeInclusive::new(0, LAST_CHALLENGE),
        }
    }
}

/// The decimal digits of `n`.
pub open spec fn decimal(n: nat) -> Seq<char>
    decreases n,
{
    if n < 10 {
        seq![digit(n)]
    } else {
        decimal(n / 10) + seq![digit(n % 10)]
    }
}

/// The character of a decimal digit.
pub open spec fn digit(d: nat) -> char {
    if d == 0 { '0' } else if d == 1 { '1' } else if d == 2 { '2' } else if d == 3 { '3' } else if d == 4 { '4' }
    else if d == 5 { '5' } else if d == 6 { '6' } else if d == 7 { '7' } else if d == 8 { '8' } else { '9' }
}

fn digit_char(d: u8) -> (r: char)
    requires
        d < 10,
    ensures
        r == digit(d as nat),
{
    if d == 0 { '0' } else if d == 1 { '1' } else if d == 2 { '2' } else if d == 3 { '3' } else if d == 4 { '4' }
    else if d == 5 { '5' } else if d == 6 { '6' } else if d == 7 { '7' } else if d == 8 { '8' } else { '9' }
}

/// The file name `<stem><suffix>.txt`, where the suffix is the challenge
/// number, or nothing for challenge 0.
pub open spec fn challenge_file(stem: Seq<char>, number: u8) -> Seq<char> {
    stem + (if number == 0 { Seq::empty() } else { decimal(number as nat) }) + seq!['.', 't', 'x', 't']
}

fn push_file_name(out: &mut Vec<char>, number: u8)
    ensures
        final(out)@ == challenge_file(old(out)@, number),
{
    let ghost stem = out@;
    let ghost n = number as nat;
    if number >= 100 {
        out.push(digit_char(number / 100));
        out.push(digit_char((number / 10) % 10));
        out.push(digit_char(number % 10));
        proof {
            assert(decimal(n / 100) == seq![digit(n / 100)]);
            assert(decimal(n / 10) == decimal((n / 10) / 10) + seq![digit((n / 10) % 10)]);
            assert((n / 10) / 10 == n / 100);
            assert(decimal(n) == decimal(n / 10) + seq![digit(n % 10)]);
            assert(decimal(n) =~= seq![digit(n / 100), digit((n / 10) % 10), digit(n % 10)]);
            assert(out@ =~= stem + decimal(n));
        }
    } else if number >= 10 {
        out.push(digit_char(number / 10));
        out.push(digit_char(number % 10));
        proof {
            assert(decimal(n / 10) == seq![digit(n / 10)]);
            assert(decimal(n) =~= seq![digit(n / 10), digit(n % 10)]);
            assert(out@ =~= stem + decimal(n));
        }
    } else if number > 0 {
        out.push(digit_char(number));
        proof {
            assert(out@ =~= stem + decimal(n));
        }
    }
    let ghost mid = out@;
    out.push('.');
    out.push('t');
    out.push('x');
    out.push('t');
    proof {
        assert(out@ =~= mid + seq!['.', 't', 'x', 't']);
        if number == 0 {
            assert(mid =~= stem + Seq::<char>::empty());
        }
        assert(out@ =~= challenge_file(stem, number));
    }
}

/// The input and output file names of a challenge: `input<n>.txt` and
/// `output<n>.txt`, without the number for challenge 0.
pub fn challenge_paths(number: u8) -> (r: (String, String))
    ensures
        r.0@ == challenge_file(seq!['i', 'n', 'p', 'u', 't'], number),
        r.1@ == challenge_file(seq!['o', 'u', 't', 'p', 'u', 't'], number),
{
    let mut input: Vec<char> = vec!['i', 'n', 'p', 'u', 't'];
    push_file_name(&mut input, number);
    let mut output: Vec<char> = vec!['o', 'u', 't', 'p', 'u', 't'];
    push_file_name(&mut output, number);
    (crate::text::string_of(&input), crate::text::string_of(&output))
}

} // verus!
