//! What running tokens does to the stack.

use vstd::prelude::*;
use crate::ops::Error;
use crate::ops::Op;
use crate::ops::Outcome;
use crate::ops::Value;
use crate::text::fields;
use crate::text::integer;
use crate::text::lowercase;
use crate::text::trimmed;
use crate::words::Word;

verus! {

/// Running one token that is a number or an operator: a number is pushed,
/// an operator applied, anything else is unknown.  The token is read as a
/// number as it stands; it is looked up among the operators without the
/// white space at its ends.
pub open spec fn primitive(stack: Seq<Value>, token: Seq<char>) -> Outcome {
    match integer(token) {
        Some(value) => Outcome { stack: stack.push(value), result: Ok(()) },
        None => match Op::of_token(trimmed(token)) {
            Some(op) => op.run(stack),
            None => Outcome { stack, result: Err(Error::UnknownWord) },
        },
    }
}

/// Running numbers and operators one after the other, up to the first that
/// fails.
pub open spec fn primitives(stack: Seq<Value>, tokens: Seq<Seq<char>>) -> Outcome
    decreases tokens.len(),
{
    if tokens.len() == 0 {
        Outcome { stack, result: Ok(()) }
    } else {
        let first = primitive(stack, tokens[0]);
        if first.result is Err {
            first
        } else {
            primitives(first.stack, tokens.drop_first())
        }
    }
}

/// Running the same numbers and operators `times` times over, up to the
/// first that fails.
pub open spec fn repeatedly(stack: Seq<Value>, tokens: Seq<Seq<char>>, times: nat) -> Outcome
    decreases times,
{
    if times == 0 {
        Outcome { stack, result: Ok(()) }
    } else {
        let once = primitives(stack, tokens);
        if once.result is Err {
            once
        } else {
            repeatedly(once.stack, tokens, (times - 1) as nat)
        }
    }
}

/// What a token of an execution statement stands for: the tokens to run and
/// how many times over.  An empty token stands for nothing.  A token that
/// writes no integer and names a defined word, in whatever case, stands for
/// the tokens of the word's stored body, taken as often as its count says.
/// Any other token stands for itself, once.
pub open spec fn expansion(words: Map<Seq<char>, Word>, token: Seq<char>) -> (Seq<Seq<char>>, nat) {
    if token.len() == 0 {
        (Seq::empty(), 0)
    } else if integer(token) is None && words.contains_key(lowercase(token)) {
        (fields(words[lowercase(token)].body, ' '), words[lowercase(token)].count)
    } else {
        (seq![token], 1)
    }
}

/// Running one token of an execution statement.  What a word expands to is
/// run as numbers and operators: it is not looked up again.
pub open spec fn token_run(words: Map<Seq<char>, Word>, stack: Seq<Value>, token: Seq<char>) -> Outcome {
    repeatedly(stack, expansion(words, token).0, expansion(words, token).1)
}

/// Running the tokens of an execution statement in order, up to the first
/// that fails.
pub open spec fn tokens_run(
    words: Map<Seq<char>, Word>,
    stack: Seq<Value>,
    tokens: Seq<Seq<char>>,
) -> Outcome
    decreases tokens.len(),
{
    if tokens.len() == 0 {
        Outcome { stack, result: Ok(()) }
    } else {
        let first = token_run(words, stack, tokens[0]);
        if first.result is Err {
            first
        } else {
            tokens_run(words, first.stack, tokens.drop_first())
        }
    }
}

/// Running an execution statement: its tokens are what single spaces
/// separate.
pub open spec fn executed(words: Map<Seq<char>, Word>, stack: Seq<Value>, statement: Seq<char>) -> Outcome {
    tokens_run(words, stack, fields(statement, ' '))
}

} // verus!
