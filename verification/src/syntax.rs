//! The shape of a program: its statements, and the parts of a definition.

use vstd::prelude::*;
use crate::text::copy_range;
use crate::text::find;
use crate::text::lemma_next_index_bounds;
use crate::text::next_index;
use crate::text::texts;

verus! {

/// The index just past the statement that begins at `from`.  A definition
/// begins at a `:` and runs through the next `;`, or to the end of the text
/// where none follows; any other statement runs up to the next `:`, or to
/// the end of the text.
pub open spec fn statement_end(s: Seq<char>, from: nat) -> nat
    recommends
        from < s.len(),
{
    if s[from as int] != ':' {
        next_index(s, ':', from)
    } else if next_index(s, ';', from) < s.len() {
        next_index(s, ';', from) + 1
    } else {
        s.len()
    }
}

/// A statement is not empty and ends within the text.  A definition holds
/// no `;` before its last character, and any other statement holds no `:`.
pub proof fn lemma_statement_end(s: Seq<char>, from: nat)
    requires
        from < s.len(),
    ensures
        from < statement_end(s, from) <= s.len(),
        s[from as int] == ':' ==> forall|j: int| from <= j < statement_end(s, from) - 1 ==> s[j] != ';',
        s[from as int] != ':' ==> forall|j: int| from <= j < statement_end(s, from) ==> s[j] != ':',
{
    lemma_next_index_bounds(s, ';', from);
    lemma_next_index_bounds(s, ':', from);
    lemma_next_index_bounds(s, ':', from + 1);
}

/// The statements of `s` from index `from` on, each running from where the
/// one before it ended.
pub open spec fn statements_from(s: Seq<char>, from: nat) -> Seq<Seq<char>>
    decreases s.len() - from,
{
    if from >= s.len() {
        Seq::empty()
    } else {
        proof {
            lemma_statement_end(s, from);
        }
        seq![s.subrange(from as int, statement_end(s, from) as int)] + statements_from(
            s,
            statement_end(s, from),
        )
    }
}

/// The statements of a program text, in order.
pub open spec fn statements(s: Seq<char>) -> Seq<Seq<char>> {
    statements_from(s, 0)
}

/// The name and the body of a definition statement, or none where the
/// statement is malformed.  A definition reads `: name body ;`: a colon and
/// a space, the name up to the next space, the body, and a space and a
/// semicolon.  The body may hold any number of tokens, or none.
pub open spec fn definition(statement: Seq<char>) -> Option<(Seq<char>, Seq<char>)> {
    let n = statement.len() as int;
    if n >= 4 && statement[0] == ':' && statement[1] == ' ' && statement[n - 2] == ' '
        && statement[n - 1] == ';' {
        let inner = statement.subrange(2, n - 2);
        let end = next_index(inner, ' ', 0);
        if end < inner.len() {
            Some((inner.subrange(0, end as int), inner.subrange(end as int + 1, inner.len() as int)))
        } else {
            Some((inner, Seq::empty()))
        }
    } else {
        None
    }
}

/// Splits a program text into its statements.
pub fn split_to_statements(input: &[char]) -> (found: Vec<Vec<char>>)
    ensures
        texts(found@) == statements(input@),
{
    let mut found: Vec<Vec<char>> = Vec::new();
    let mut from: usize = 0;
    while from < input.len()
        invariant
            from <= input@.len(),
            texts(found@) + statements_from(input@, from as nat) == statements(input@),
        decreases input@.len() - from,
    {
        let ghost before = found@;
        let ghost start = from;
        proof {
            lemma_statement_end(input@, from as nat);
        }
        let end: usize = if input[from] != ':' {
            find(input, ':', from)
        } else {
            let semicolon: usize = find(input, ';', from);
            if semicolon < input.len() {
                semicolon + 1
            } else {
                input.len()
            }
        };
        found.push(copy_range(input, from, end));
        from = end;
        assert(texts(found@) + statements_from(input@, from as nat) =~= texts(before)
            + statements_from(input@, start as nat));
    }
    found
}

/// Takes a definition statement apart into its name and its body.
pub fn parse_definition(statement: &[char]) -> (parts: Option<(Vec<char>, Vec<char>)>)
    ensures
        match parts {
            Some((name, body)) => definition(statement@) == Some((name@, body@)),
            None => definition(statement@) is None,
        },
{
    let n: usize = statement.len();
    if n < 4 || statement[0] != ':' || statement[1] != ' ' || statement[n - 2] != ' ' || statement[n
        - 1] != ';' {
        return None;
    }
    let inner: Vec<char> = copy_range(statement, 2, n - 2);
    let end: usize = find(inner.as_slice(), ' ', 0);
    if end < inner.len() {
        let name = copy_range(inner.as_slice(), 0, end);
        let body = copy_range(inner.as_slice(), end + 1, inner.len());
        Some((name, body))
    } else {
        Some((inner, Vec::new()))
    }
}

} // verus!
