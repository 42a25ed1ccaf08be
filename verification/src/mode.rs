//! How deep a scan descends below its root.

use vstd::prelude::*;
use vstd::std_specs::iter::IteratorSpec;
use crate::error::ScanError;

verus! {

/// Whether, and how far, a scan descends into subdirectories.
#[derive(Debug, Clone, Copy, PartialEq, Eq, Structural)]
pub enum ReccursionMode {
    /// Only the root directory's own entries are looked at.
    NonRecursive,
    /// Subdirectories are entered down to `depth` levels below the root.
    Limited { depth: u8 },
    /// Subdirectories are entered without limit.
    Unlimited,
}

/// True for the ten ASCII digits.
pub open spec fn is_digit(c: char) -> bool {
    '0' <= c <= '9'
}

/// The number that a string of digits writes in base ten.
pub open spec fn digits_value(digits: Seq<char>) -> nat
    decreases digits.len(),
{
    if digits.len() == 0 {
        0
    } else {
        (10 * digits_value(digits.drop_last()) + (digits.last() as nat - '0' as nat)) as nat
    }
}

/// A numeral without its sign: the text after one leading `+`, if there is one.
pub open spec fn unsigned(text: Seq<char>) -> Seq<char> {
    if text.len() > 0 && text[0] == '+' {
        text.drop_first()
    } else {
        text
    }
}

/// The depth that a text writes, if it writes one: an optional `+`, then one
/// or more digits, of a number no larger than 255.
pub open spec fn depth_of(text: Seq<char>) -> Option<u8> {
    let digits = unsigned(text);
    if digits.len() > 0 && (forall|i: int| 0 <= i < digits.len() ==> is_digit(#[trigger] digits[i]))
        && digits_value(digits) <= u8::MAX {
        Some(digits_value(digits) as u8)
    } else {
        None
    }
}

/// The mode that a text stands for, if it stands for one: the empty text for
/// no recursion, the word `unlimited`, or a depth.
pub open spec fn mode_of(text: Seq<char>) -> Option<ReccursionMode> {
    if text.len() == 0 {
        Some(ReccursionMode::NonRecursive)
    } else if text == "unlimited"@ {
        Some(ReccursionMode::Unlimited)
    } else {
        match depth_of(text) {
            Some(depth) => Some(ReccursionMode::Limited { depth }),
            None => None,
        }
    }
}

/// Whether two strings hold the same characters.
fn same_text(a: &str, b: &str) -> (same: bool)
    ensures
        same == (a@ == b@),
{
    let mut left = a.chars();
    let mut right = b.chars();
    let ghost mut done: int = 0;
    loop
        invariant
            0 <= done <= a@.len(),
            done <= b@.len(),
            left.remaining() == a@.skip(done),
            right.remaining() == b@.skip(done),
            a@.take(done) == b@.take(done),
            left.obeys_prophetic_iter_laws(),
            right.obeys_prophetic_iter_laws(),
        decreases a@.len() - done,
    {
        let x = left.next();
        let y = right.next();
        match (x, y) {
            (Some(c), Some(d)) => {
                if c != d {
                    assert(a@[done] != b@[done]);
                    return false;
                }
                proof {
                    assert(a@.take(done + 1) == a@.take(done).push(a@[done]));
                    assert(b@.take(done + 1) == b@.take(done).push(b@[done]));
                    assert(a@.skip(done).drop_first() == a@.skip(done + 1));
                    assert(b@.skip(done).drop_first() == b@.skip(done + 1));
                    done = done + 1;
                }
            },
            (None, None) => {
                assert(a@.take(done) == a@);
                assert(b@.take(done) == b@);
                return true;
            },
            _ => {
                assert(a@.len() != b@.len());
                return false;
            },
        }
    }
}

/// A string of digits is worth at least as much as any of its prefixes.
proof fn lemma_value_grows(digits: Seq<char>, n: int)
    requires
        0 <= n <= digits.len(),
        forall|i: int| 0 <= i < digits.len() ==> is_digit(#[trigger] digits[i]),
    ensures
        digits_value(digits.take(n)) <= digits_value(digits),
    decreases digits.len(),
{
    if n == digits.len() {
        assert(digits.take(n) == digits);
    } else {
        lemma_value_grows(digits.drop_last(), n);
        assert(digits.drop_last().take(n) == digits.take(n));
        assert(is_digit(digits.last()));
    }
}

/// Reads a depth: an optional `+`, then digits, worth at most 255.
fn parse_depth(input: &str) -> (depth: Option<u8>)
    ensures
        depth == depth_of(input@),
{
    let mut chars = input.chars();
    let ghost text = input@;
    let ghost mut done: int = 0;
    let ghost mut start: int = 0;
    let mut first = true;
    let mut any_digit = false;
    let mut value: u8 = 0;
    loop
        invariant
            text == input@,
            0 <= start <= done <= text.len(),
            chars.remaining() == text.skip(done),
            chars.obeys_prophetic_iter_laws(),
            first <==> done == 0,
            any_digit <==> done > start,
            start == 0 || start == 1,
            start == 1 ==> text[0] == '+',
            start == 0 && done > 0 ==> text[0] != '+',
            forall|i: int| start <= i < done ==> is_digit(#[trigger] text[i]),
            value == digits_value(text.subrange(start, done)),
        decreases text.len() - done,
    {
        match chars.next() {
            None => {
                proof {
                    assert(done == text.len());
                    assert(unsigned(text) == text.subrange(start, done));
                }
                return if any_digit { Some(value) } else { None };
            },
            Some(c) => {
                assert(c == text[done]);
                proof {
                    assert(text.skip(done).drop_first() == text.skip(done + 1));
                }
                if first && c == '+' {
                    first = false;
                    proof {
                        start = 1;
                        done = 1;
                        assert(text.subrange(1, 1) == Seq::<char>::empty());
                    }
                } else if '0' <= c && c <= '9' {
                    let digit: u8 = (c as u8) - ('0' as u8);
                    let ghost before = text.subrange(start, done);
                    let ghost after = text.subrange(start, done + 1);
                    proof {
                        assert(after.drop_last() == before);
                        assert(after.last() == c);
                    }
                    if value > 25 || (value == 25 && digit > 5) {
                        proof {
                            let digits = unsigned(text);
                            if forall|i: int| 0 <= i < digits.len() ==> is_digit(#[trigger] digits[i]) {
                                assert(digits == text.subrange(start, text.len() as int));
                                lemma_value_grows(digits, done + 1 - start);
                                assert(digits.take(done + 1 - start) == after);
                            }
                        }
                        return None;
                    }
                    value = value * 10 + digit;
                    first = false;
                    any_digit = true;
                    proof {
                        done = done + 1;
                    }
                } else {
                    proof {
                        let digits = unsigned(text);
                        if first {
                            assert(digits == text);
                            assert(!is_digit(digits[0]));
                        } else {
                            assert(digits == text.subrange(start, text.len() as int));
                            assert(digits[done - start] == c);
                            assert(!is_digit(digits[done - start]));
                        }
                    }
                    return None;
                }
            },
        }
    }
}

impl ReccursionMode {
    /// Reads a mode from text: the empty text means no recursion, the word
    /// `unlimited` means no limit, and a depth means that limit. Anything
    /// else is refused as `InvalidRecursionDepth`.
    pub fn from_str(input: &str) -> (parsed: Result<ReccursionMode, ScanError>)
        ensures
            parsed == match mode_of(input@) {
                Some(mode) => Ok::<ReccursionMode, ScanError>(mode),
                None => Err(ScanError::InvalidRecursionDepth),
            },
    {
        if input.is_empty() {
            return Ok(ReccursionMode::NonRecursive);
        }
        if same_text(input, "unlimited") {
            return Ok(ReccursionMode::Unlimited);
        }
        match parse_depth(input) {
            Some(depth) => Ok(ReccursionMode::Limited { depth }),
            None => Err(ScanError::InvalidRecursionDepth),
        }
    }

    /// True unless the mode is `NonRecursive`.
    pub fn is_reccursive(&self) -> (r: bool)
        ensures
            r == !(*self is NonRecursive),
    {
        match self {
            Self::NonRecursive => false,
            _ => true,
        }
    }

    /// True exactly for `Unlimited`.
    pub fn is_unlimited(&self) -> (r: bool)
        ensures
            r == (*self is Unlimited),
    {
        match self {
            Self::Unlimited => true,
            _ => false,
        }
    }

    /// The budget a scan starts with: the depth of a `Limited` mode, and 0 otherwise.
    ///
    /// `Unlimited` counts nothing down, so 0 here does not mean "no descent":
    /// ask `is_unlimited` before reading the budget.
    pub fn depth(&self) -> (d: u8)
        ensures
            d == self.spec_depth(),
    {
        match self {
            Self::Limited { depth } => *depth,
            _ => 0,
        }
    }

    /// The budget a scan starts with, as a specification.
    pub open spec fn spec_depth(&self) -> u8 {
        match *self {
            Self::Limited { depth } => depth,
            _ => 0,
        }
    }
}

} // verus!
