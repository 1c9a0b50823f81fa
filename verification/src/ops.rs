//! The built-in operators and what each does to the stack.

use vstd::prelude::*;
use crate::text::lowercase;
use crate::text::to_lowercase;

verus! {

/// What the stack holds.
pub type Value = i32;

/// Why an evaluation stopped.
#[derive(Debug, PartialEq, Eq, Clone, Copy, Structural)]
pub enum Error {
    /// The divisor on top of the stack was zero.
    DivisionByZero,
    /// An operator found fewer values than it needs.
    StackUnderflow,
    /// A token is no number, no operator and no defined word.
    UnknownWord,
    /// A definition is malformed, or names a word after a number.
    InvalidWord,
}

/// A built-in operator.
#[derive(Debug, PartialEq, Eq, Clone, Copy, Structural)]
pub enum Op {
    Add,
    Subtract,
    Divide,
    Multiply,
    Dup,
    Drop,
    Swap,
    Over,
}

/// A stack together with the verdict on how it was reached.  On an error the
/// stack is the one the failing step found: a step that fails changes nothing.
pub struct Outcome {
    pub stack: Seq<Value>,
    pub result: Result<(), Error>,
}

/// The value in `Value`'s range that is congruent to `x` modulo 2^32.
pub open spec fn wrap(x: int) -> Value {
    ((x + 0x8000_0000) % 0x1_0000_0000 - 0x8000_0000) as Value
}

/// The quotient of `b` by `a` rounded toward zero.
pub open spec fn truncated_quotient(b: int, a: int) -> int
    recommends
        a != 0,
{
    let magnitude = vstd::math::abs(b) as int / vstd::math::abs(a) as int;
    if (b < 0) == (a < 0) {
        magnitude
    } else {
        -magnitude
    }
}

impl Op {
    /// The operator that a lower-case name stands for.
    pub open spec fn named(name: Seq<char>) -> Option<Op> {
        if name == seq!['+'] {
            Some(Op::Add)
        } else if name == seq!['-'] {
            Some(Op::Subtract)
        } else if name == seq!['*'] {
            Some(Op::Multiply)
        } else if name == seq!['/'] {
            Some(Op::Divide)
        } else if name == seq!['d', 'u', 'p'] {
            Some(Op::Dup)
        } else if name == seq!['d', 'r', 'o', 'p'] {
            Some(Op::Drop)
        } else if name == seq!['s', 'w', 'a', 'p'] {
            Some(Op::Swap)
        } else if name == seq!['o', 'v', 'e', 'r'] {
            Some(Op::Over)
        } else {
            None
        }
    }

    /// The operator that a word stands for, in whatever case it is written:
    /// the one that its lower-case form names.
    pub open spec fn of_token(token: Seq<char>) -> Option<Op> {
        Op::named(lowercase(token))
    }

    /// Looks a name in lower case up among the operators.  The name is
    /// compared as it stands.
    pub fn from_lowercase(name: &[char]) -> (found: Result<Op, Error>)
        ensures
            found == match Op::named(name@) {
                Some(op) => Ok::<Op, Error>(op),
                None => Err::<Op, Error>(Error::UnknownWord),
            },
    {
        let n: usize = name.len();
        if n == 1 {
            let c: char = name[0];
            if c == '+' {
                assert(name@ =~= seq!['+']);
                return Ok(Op::Add);
            } else if c == '-' {
                assert(name@ =~= seq!['-']);
                return Ok(Op::Subtract);
            } else if c == '*' {
                assert(name@ =~= seq!['*']);
                return Ok(Op::Multiply);
            } else if c == '/' {
                assert(name@ =~= seq!['/']);
                return Ok(Op::Divide);
            }
        } else if n == 3 {
            if name[0] == 'd' && name[1] == 'u' && name[2] == 'p' {
                assert(name@ =~= seq!['d', 'u', 'p']);
                return Ok(Op::Dup);
            }
        } else if n == 4 {
            if name[0] == 'd' && name[1] == 'r' && name[2] == 'o' && name[3] == 'p' {
                assert(name@ =~= seq!['d', 'r', 'o', 'p']);
                return Ok(Op::Drop);
            } else if name[0] == 's' && name[1] == 'w' && name[2] == 'a' && name[3] == 'p' {
                assert(name@ =~= seq!['s', 'w', 'a', 'p']);
                return Ok(Op::Swap);
            } else if name[0] == 'o' && name[1] == 'v' && name[2] == 'e' && name[3] == 'r' {
                assert(name@ =~= seq!['o', 'v', 'e', 'r']);
                return Ok(Op::Over);
            }
        }
        Err(Error::UnknownWord)
    }

    /// Looks a word up among the operators, in whatever case it is written.
    /// Its lower-case form is compared as it stands.
    pub fn try_from(word: &[char]) -> (found: Result<Op, Error>)
        ensures
            found == match Op::named(lowercase(word@)) {
                Some(op) => Ok::<Op, Error>(op),
                None => Err::<Op, Error>(Error::UnknownWord),
            },
    {
        let lower: Vec<char> = to_lowercase(word);
        Op::from_lowercase(lower.as_slice())
    }

    /// How many values the operator needs to find on the stack.
    pub open spec fn operands(self) -> nat {
        match self {
            Op::Dup | Op::Drop => 1,
            _ => 2,
        }
    }

    /// The stack that the operator leaves, or the reason it cannot run.
    /// With `a` on top and `b` below it, the arithmetic operators replace both
    /// by `b + a`, `b - a`, `b * a` or `b / a`, wrapped into `Value`'s range.
    pub open spec fn apply(self, stack: Seq<Value>) -> Result<Seq<Value>, Error> {
        let n = stack.len() as int;
        if n < self.operands() {
            Err(Error::StackUnderflow)
        } else {
            let a = stack[n - 1];
            match self {
                Op::Dup => Ok(stack.push(a)),
                Op::Drop => Ok(stack.take(n - 1)),
                Op::Over => Ok(stack.push(stack[n - 2])),
                Op::Swap => Ok(stack.take(n - 2).push(a).push(stack[n - 2])),
                Op::Add => Ok(stack.take(n - 2).push(wrap(stack[n - 2] + a))),
                Op::Subtract => Ok(stack.take(n - 2).push(wrap(stack[n - 2] - a))),
                Op::Multiply => Ok(stack.take(n - 2).push(wrap(stack[n - 2] * a))),
                Op::Divide => if a == 0 {
                    Err(Error::DivisionByZero)
                } else {
                    Ok(stack.take(n - 2).push(wrap(truncated_quotient(stack[n - 2] as int, a as int))))
                },
            }
        }
    }

    /// The operator as a step: the new stack, or the old one and the error.
    pub open spec fn run(self, stack: Seq<Value>) -> Outcome {
        match self.apply(stack) {
            Ok(next) => Outcome { stack: next, result: Ok(()) },
            Err(error) => Outcome { stack, result: Err(error) },
        }
    }
}

/// A quotient rounded toward zero is no larger in magnitude than the dividend.
pub proof fn lemma_truncated_quotient_bounds(b: int, a: int)
    requires
        a != 0,
    ensures
        -vstd::math::abs(b) <= truncated_quotient(b, a) <= vstd::math::abs(b),
        b == 0 ==> truncated_quotient(b, a) == 0,
{
    let x = vstd::math::abs(b) as int;
    let d = vstd::math::abs(a) as int;
    vstd::arithmetic::div_mod::lemma_div_pos_is_pos(x, d);
    vstd::arithmetic::div_mod::lemma_div_is_ordered_by_denominator(x, 1, d);
    vstd::arithmetic::div_mod::lemma_div_basics(x);
    vstd::arithmetic::div_mod::lemma_div_basics(d);
}

/// `b / a` rounded toward zero; the one quotient out of range, that of the
/// least value by -1, wraps to the least value.
pub fn divide(b: Value, a: Value) -> (q: Value)
    requires
        a != 0,
    ensures
        q == wrap(truncated_quotient(b as int, a as int)),
{
    proof {
        lemma_truncated_quotient_bounds(b as int, a as int);
    }
    match b.checked_div(a) {
        Some(q) => q,
        None => Value::MIN,
    }
}

} // verus!
