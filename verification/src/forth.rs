//! The interpreter: a stack, a word table, and the evaluation of a text.

use vstd::prelude::*;
use vstd::slice::slice_to_vec;
use crate::ops::divide;
use crate::ops::Error;
use crate::ops::Op;
use crate::ops::Value;
use crate::run::executed;
use crate::run::expansion;
use crate::run::primitive;
use crate::run::primitives;
use crate::run::repeatedly;
use crate::syntax::definition;
use crate::syntax::parse_definition;
use crate::syntax::split_to_statements;
use crate::syntax::statements;
use crate::text::integer;
use crate::text::lowercase;
use crate::text::parse_int;
use crate::text::split;
use crate::text::texts;
use crate::text::to_chars;
use crate::text::to_lowercase;
use crate::text::trim;
use crate::words::stored;
use crate::words::Word;
use crate::words::WordTable;

verus! {

/// The model of an interpreter.
pub struct Machine {
    /// The stack, bottom first.
    pub stack: Seq<Value>,
    /// The words defined, by lower-case name.
    pub words: Map<Seq<char>, Word>,
}

/// A machine together with the verdict on how it was reached.
pub struct Step {
    pub machine: Machine,
    pub result: Result<(), Error>,
}

/// The table after a definition statement, or `InvalidWord` where the
/// statement is malformed or its name, in lower case, reads as an integer.
/// The word is stored under its name in lower case, in place of any word of
/// that name; what it stores is worked out from the table as it was.
pub open spec fn defined(words: Map<Seq<char>, Word>, statement: Seq<char>) -> Result<
    Map<Seq<char>, Word>,
    Error,
> {
    match definition(statement) {
        None => Err(Error::InvalidWord),
        Some(parts) => if integer(lowercase(parts.0)) is Some {
            Err(Error::InvalidWord)
        } else {
            Ok(words.insert(lowercase(parts.0), stored(words, parts.1)))
        },
    }
}

/// One statement: a definition changes the words, anything else is executed
/// and changes the stack.  A definition that fails changes nothing; an
/// execution that fails leaves the stack as the failing token found it.
pub open spec fn statement_step(machine: Machine, statement: Seq<char>) -> Step {
    if statement.len() > 0 && statement[0] == ':' {
        match defined(machine.words, statement) {
            Ok(words) => Step { machine: Machine { stack: machine.stack, words }, result: Ok(()) },
            Err(error) => Step { machine, result: Err(error) },
        }
    } else {
        let outcome = executed(machine.words, machine.stack, statement);
        Step {
            machine: Machine { stack: outcome.stack, words: machine.words },
            result: outcome.result,
        }
    }
}

/// The statements in order, up to the first that fails.
pub open spec fn steps(machine: Machine, statements: Seq<Seq<char>>) -> Step
    decreases statements.len(),
{
    if statements.len() == 0 {
        Step { machine, result: Ok(()) }
    } else {
        let first = statement_step(machine, statements[0]);
        if first.result is Err {
            first
        } else {
            steps(first.machine, statements.drop_first())
        }
    }
}

/// Evaluating a program text.
pub open spec fn run(machine: Machine, input: Seq<char>) -> Step {
    steps(machine, statements(input))
}

/// An interpreter.
pub struct Forth {
    stack: Vec<Value>,
    words: WordTable,
}

impl View for Forth {
    type V = Machine;

    closed spec fn view(&self) -> Machine {
        Machine { stack: self.stack@, words: self.words@ }
    }
}

impl Forth {
    /// Whether the interpreter is in order.
    pub closed spec fn wf(&self) -> bool {
        self.words.wf()
    }

    /// An interpreter in order has finitely many words.
    pub proof fn lemma_finite(&self)
        requires
            self.wf(),
        ensures
            self@.words.dom().finite(),
    {
        self.words.lemma_finite();
    }

    /// A fresh interpreter: nothing on the stack, no word defined.
    pub fn new() -> (forth: Forth)
        ensures
            forth.wf(),
            forth@.stack == Seq::<Value>::empty(),
            forth@.words == Map::<Seq<char>, Word>::empty(),
    {
        Forth { stack: Vec::new(), words: WordTable::new() }
    }

    /// The stack, bottom first.
    pub fn stack(&self) -> (stack: &[Value])
        ensures
            stack@ == self@.stack,
    {
        self.stack.as_slice()
    }

    /// The words defined.
    pub fn words(&self) -> (words: &WordTable)
        requires
            self.wf(),
        ensures
            words.wf(),
            words@ == self@.words,
    {
        &self.words
    }

    /// Applies one operator to the stack.  A failing operator leaves the stack
    /// as it found it.
    pub fn operate(&mut self, op: Op) -> (result: Result<(), Error>)
        requires
            old(self).wf(),
        ensures
            final(self).wf(),
            final(self)@.words == old(self)@.words,
            final(self)@.stack == op.run(old(self)@.stack).stack,
            result == op.run(old(self)@.stack).result,
    {
        let n: usize = self.stack.len();
        let needed: usize = match op {
            Op::Dup | Op::Drop => 1,
            _ => 2,
        };
        if n < needed {
            return Err(Error::StackUnderflow);
        }
        let a: Value = self.stack[n - 1];
        match op {
            Op::Dup => {
                self.stack.push(a);
            },
            Op::Drop => {
                self.stack.pop();
            },
            Op::Over => {
                let b: Value = self.stack[n - 2];
                self.stack.push(b);
            },
            _ => {
                let b: Value = self.stack[n - 2];
                if op == Op::Divide && a == 0 {
                    return Err(Error::DivisionByZero);
                }
                self.stack.pop();
                self.stack.pop();
                match op {
                    Op::Add => self.stack.push(b.wrapping_add(a)),
                    Op::Subtract => self.stack.push(b.wrapping_sub(a)),
                    Op::Multiply => self.stack.push(b.wrapping_mul(a)),
                    Op::Divide => self.stack.push(divide(b, a)),
                    _ => {
                        self.stack.push(a);
                        self.stack.push(b);
                    },
                }
            },
        }
        Ok(())
    }

    /// Runs one token that is a number or an operator.
    pub fn run_primitive(&mut self, token: &[char]) -> (result: Result<(), Error>)
        requires
            old(self).wf(),
        ensures
            final(self).wf(),
            final(self)@.words == old(self)@.words,
            final(self)@.stack == primitive(old(self)@.stack, token@).stack,
            result == primitive(old(self)@.stack, token@).result,
    {
        match parse_int(token) {
            Some(value) => {
                self.stack.push(value);
                Ok(())
            },
            None => match Op::try_from(trim(token).as_slice()) {
                Ok(op) => self.operate(op),
                Err(error) => Err(error),
            },
        }
    }

    /// Runs numbers and operators in order, up to the first that fails.
    #[verifier::loop_isolation(false)]
    pub fn run_primitives(&mut self, tokens: &Vec<Vec<char>>) -> (result: Result<(), Error>)
        requires
            old(self).wf(),
        ensures
            final(self).wf(),
            final(self)@.words == old(self)@.words,
            final(self)@.stack == primitives(old(self)@.stack, texts(tokens@)).stack,
            result == primitives(old(self)@.stack, texts(tokens@)).result,
    {
        let ghost whole = primitives(self@.stack, texts(tokens@));
        let ghost words = self@.words;
        let mut i: usize = 0;
        assert(texts(tokens@).skip(0) =~= texts(tokens@));
        while i < tokens.len()
            invariant
                self.wf(),
                self@.words == words,
                i <= tokens@.len(),
                whole == primitives(self@.stack, texts(tokens@).skip(i as int)),
            decreases tokens@.len() - i,
        {
            assert(texts(tokens@).skip(i as int).drop_first() =~= texts(tokens@).skip(i + 1));
            let result = self.run_primitive(tokens[i].as_slice());
            if result.is_err() {
                return result;
            }
            i += 1;
        }
        Ok(())
    }

    /// Runs the same numbers and operators `times` times over, up to the
    /// first that fails.
    #[verifier::loop_isolation(false)]
    pub fn run_repeated(&mut self, tokens: &Vec<Vec<char>>, times: u64) -> (result: Result<
        (),
        Error,
    >)
        requires
            old(self).wf(),
        ensures
            final(self).wf(),
            final(self)@.words == old(self)@.words,
            final(self)@.stack == repeatedly(old(self)@.stack, texts(tokens@), times as nat).stack,
            result == repeatedly(old(self)@.stack, texts(tokens@), times as nat).result,
    {
        let ghost whole = repeatedly(self@.stack, texts(tokens@), times as nat);
        let ghost words = self@.words;
        let mut done: u64 = 0;
        while done < times
            invariant
                self.wf(),
                self@.words == words,
                done <= times,
                whole == repeatedly(self@.stack, texts(tokens@), (times - done) as nat),
            decreases times - done,
        {
            let result = self.run_primitives(tokens);
            if result.is_err() {
                return result;
            }
            done += 1;
        }
        Ok(())
    }

    /// What a token of an execution statement stands for: the tokens to
    /// run, and how many times over.
    pub fn expand_word(&self, token: &[char]) -> (found: (Vec<Vec<char>>, u64))
        requires
            self.wf(),
        ensures
            texts(found.0@) == expansion(self@.words, token@).0,
            found.1 == expansion(self@.words, token@).1,
    {
        if token.len() == 0 {
            return (Vec::new(), 0);
        }
        if parse_int(token).is_none() {
            let lower: Vec<char> = to_lowercase(token);
            match self.words.get(lower.as_slice()) {
                Some(entry) => {
                    return (split(entry.body.as_slice(), ' '), entry.count);
                },
                None => {},
            }
        }
        let mut itself: Vec<Vec<char>> = Vec::new();
        itself.push(slice_to_vec(token));
        (itself, 1)
    }

    /// Runs an execution statement: its tokens in order, up to the first
    /// that fails.
    #[verifier::loop_isolation(false)]
    pub fn execute_statement(&mut self, input: &[char]) -> (result: Result<(), Error>)
        requires
            old(self).wf(),
        ensures
            final(self).wf(),
            final(self)@.words == old(self)@.words,
            final(self)@.stack == executed(old(self)@.words, old(self)@.stack, input@).stack,
            result == executed(old(self)@.words, old(self)@.stack, input@).result,
    {
        let tokens: Vec<Vec<char>> = split(input, ' ');
        let ghost whole = executed(self@.words, self@.stack, input@);
        let ghost words = self@.words;
        let mut i: usize = 0;
        assert(texts(tokens@).skip(0) =~= texts(tokens@));
        while i < tokens.len()
            invariant
                self.wf(),
                self@.words == words,
                i <= tokens@.len(),
                whole == crate::run::tokens_run(words, self@.stack, texts(tokens@).skip(i as int)),
            decreases tokens@.len() - i,
        {
            assert(texts(tokens@).skip(i as int).drop_first() =~= texts(tokens@).skip(i + 1));
            let (body, times) = self.expand_word(tokens[i].as_slice());
            let result = self.run_repeated(&body, times);
            if result.is_err() {
                return result;
            }
            i += 1;
        }
        Ok(())
    }

    /// Runs a definition statement: stores the word, or refuses the
    /// statement and changes nothing.
    pub fn set_params(&mut self, input: &[char]) -> (result: Result<(), Error>)
        requires
            old(self).wf(),
        ensures
            final(self).wf(),
            final(self)@.stack == old(self)@.stack,
            match defined(old(self)@.words, input@) {
                Ok(words) => result == Ok::<(), Error>(()) && final(self)@.words == words,
                Err(error) => result == Err::<(), Error>(error) && final(self)@.words == old(
                    self,
                )@.words,
            },
    {
        match parse_definition(input) {
            None => Err(Error::InvalidWord),
            Some((name, body)) => {
                let key: Vec<char> = to_lowercase(name.as_slice());
                self.words.set_param(key, body.as_slice())
            },
        }
    }

    /// Runs one statement, a definition or an execution.
    pub fn evaluate_statement(&mut self, input: &[char]) -> (result: Result<(), Error>)
        requires
            old(self).wf(),
        ensures
            final(self).wf(),
            final(self)@ == statement_step(old(self)@, input@).machine,
            result == statement_step(old(self)@, input@).result,
    {
        if input.len() > 0 && input[0] == ':' {
            self.set_params(input)
        } else {
            self.execute_statement(input)
        }
    }

    /// Evaluates a program text: its statements in order, up to the first
    /// that fails.  What ran before a failure stays done.
    #[verifier::loop_isolation(false)]
    pub fn eval(&mut self, input: &str) -> (result: Result<(), Error>)
        requires
            old(self).wf(),
        ensures
            final(self).wf(),
            final(self)@ == run(old(self)@, input@).machine,
            result == run(old(self)@, input@).result,
    {
        let chars: Vec<char> = to_chars(input);
        let found: Vec<Vec<char>> = split_to_statements(chars.as_slice());
        let ghost whole = run(self@, input@);
        let mut i: usize = 0;
        assert(texts(found@).skip(0) =~= texts(found@));
        while i < found.len()
            invariant
                self.wf(),
                i <= found@.len(),
                whole == steps(self@, texts(found@).skip(i as int)),
            decreases found@.len() - i,
        {
            assert(texts(found@).skip(i as int).drop_first() =~= texts(found@).skip(i + 1));
            let result = self.evaluate_statement(found[i].as_slice());
            if result.is_err() {
                return result;
            }
            i += 1;
        }
        Ok(())
    }
}

} // verus!
