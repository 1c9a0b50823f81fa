//! What holds of the language as a whole, proved from the definitions.

use vstd::prelude::*;
use vstd::arithmetic::div_mod::lemma_div_is_ordered_by_denominator;
use vstd::arithmetic::div_mod::lemma_fundamental_div_mod;
use vstd::arithmetic::div_mod::lemma_mod_bound;
use vstd::arithmetic::power2::lemma2_to64;
use vstd::arithmetic::power2::lemma_pow2_unfold;
use vstd::arithmetic::power2::pow2;
use vstd::math::abs;
use vstd::seq_lib::lemma_flatten_concat;
use crate::forth::defined;
use crate::ops::truncated_quotient;
use crate::ops::wrap;
use crate::ops::Error;
use crate::ops::Op;
use crate::ops::Outcome;
use crate::ops::Value;
use crate::run::expansion;
use crate::run::primitive;
use crate::run::primitives;
use crate::run::repeatedly;
use crate::run::token_run;
use crate::run::tokens_run;
use crate::syntax::definition;
use crate::syntax::lemma_statement_end;
use crate::syntax::statement_end;
use crate::syntax::statements;
use crate::syntax::statements_from;
use crate::text::fields;
use crate::text::fields_from;
use crate::text::integer;
use crate::text::join;
use crate::text::lemma_next_index_bounds;
use crate::text::lemma_next_index_is;
use crate::text::lowercase;
use crate::text::next_index;
use crate::text::trimmed;
use crate::words::capped;
use crate::words::lemma_capped_product;
use crate::words::root_and_count;
use crate::words::stored;
use crate::words::uniform;
use crate::words::Word;

verus! {

/// With `a` on top of the stack and `b` below it, each arithmetic
/// operator replaces the two by the exact result wherever that result is a
/// `Value`: `b + a`, `b - a`, `b * a`, and `b / a` rounded toward zero.
/// Division by zero is refused.
pub proof fn lemma_arithmetic_is_exact(stack: Seq<Value>, b: Value, a: Value)
    ensures
        Value::MIN <= b + a <= Value::MAX ==> Op::Add.apply(stack.push(b).push(a)) == Ok::<
            Seq<Value>,
            Error,
        >(stack.push((b + a) as Value)),
        Value::MIN <= b - a <= Value::MAX ==> Op::Subtract.apply(stack.push(b).push(a)) == Ok::<
            Seq<Value>,
            Error,
        >(stack.push((b - a) as Value)),
        Value::MIN <= b * a <= Value::MAX ==> Op::Multiply.apply(stack.push(b).push(a)) == Ok::<
            Seq<Value>,
            Error,
        >(stack.push((b * a) as Value)),
        a != 0 && !(b == Value::MIN && a == -1) ==> Op::Divide.apply(stack.push(b).push(a)) == Ok::<
            Seq<Value>,
            Error,
        >(stack.push(truncated_quotient(b as int, a as int) as Value)),
        a == 0 ==> Op::Divide.apply(stack.push(b).push(a)) == Err::<Seq<Value>, Error>(
            Error::DivisionByZero,
        ),
{
    let full = stack.push(b).push(a);
    assert(full.take(full.len() - 2) =~= stack);
    if a != 0 {
        crate::ops::lemma_truncated_quotient_bounds(b as int, a as int);
        if a < -1 {
            lemma_div_is_ordered_by_denominator(abs(b as int) as int, 2, abs(a as int) as int);
        }
    }
}

/// The quotient rounded toward zero leaves a remainder smaller in magnitude
/// than the divisor and of the dividend's sign.
pub proof fn lemma_quotient_rounds_toward_zero(b: int, a: int)
    requires
        a != 0,
    ensures
        abs(b - truncated_quotient(b, a) * a) < abs(a),
        b >= 0 ==> b - truncated_quotient(b, a) * a >= 0,
        b <= 0 ==> b - truncated_quotient(b, a) * a <= 0,
{
    let x = abs(b) as int;
    let d = abs(a) as int;
    let m = x / d;
    lemma_fundamental_div_mod(x, d);
    lemma_mod_bound(x, d);
    assert(x - m * d == x % d) by (nonlinear_arith)
        requires
            x == d * m + x % d,
    ;
    assert((-m) * a == -(m * a) && m * (-a) == -(m * a)) by (nonlinear_arith);
}

/// An operator that finds fewer values than it needs reports an underflow
/// and leaves the stack as it is.
pub proof fn lemma_underflow(op: Op, stack: Seq<Value>)
    requires
        stack.len() < op.operands(),
    ensures
        op.run(stack) == (Outcome { stack, result: Err(Error::StackUnderflow) }),
{
}

/// An operator that fails, for whatever reason, leaves the stack as it is.
pub proof fn lemma_failure_changes_nothing(op: Op, stack: Seq<Value>)
    requires
        op.run(stack).result is Err,
    ensures
        op.run(stack).stack == stack,
{
}

/// Two tokens that differ only in case run alike: if both write the same
/// integer or none, neither is empty, and their lower-case forms are equal,
/// as they stand and without the white space at their ends, they do the
/// same to every stack under every table.
pub proof fn lemma_case_does_not_matter(
    words: Map<Seq<char>, Word>,
    stack: Seq<Value>,
    one: Seq<char>,
    other: Seq<char>,
)
    requires
        one.len() > 0,
        other.len() > 0,
        integer(one) == integer(other),
        lowercase(one) == lowercase(other),
        lowercase(trimmed(one)) == lowercase(trimmed(other)),
    ensures
        token_run(words, stack, one) == token_run(words, stack, other),
{
    lemma_single_token(stack, one);
    lemma_single_token(stack, other);
}

/// Running the one-token list once is running the token.
pub proof fn lemma_single_token(stack: Seq<Value>, token: Seq<char>)
    ensures
        repeatedly(stack, seq![token], 1) == primitive(stack, token),
{
    let once = primitives(stack, seq![token]);
    assert(seq![token].drop_first() =~= Seq::<Seq<char>>::empty());
    assert(once == primitive(stack, token)) by {
        let first = primitive(stack, seq![token][0]);
        if !(first.result is Err) {
            assert(primitives(first.stack, Seq::<Seq<char>>::empty()) == first);
        }
    }
    if !(once.result is Err) {
        assert(repeatedly(once.stack, seq![token], 0) == once);
    }
}

/// Two definitions whose names differ only in case, with the same body,
/// define the same word.
pub proof fn lemma_case_of_name_does_not_matter(
    words: Map<Seq<char>, Word>,
    one: Seq<char>,
    other: Seq<char>,
)
    requires
        definition(one) is Some,
        definition(other) is Some,
        lowercase(definition(one).unwrap().0) == lowercase(definition(other).unwrap().0),
        definition(one).unwrap().1 == definition(other).unwrap().1,
    ensures
        defined(words, one) == defined(words, other),
{
}

/// A definition written out in full is taken apart into the name and the
/// body it was written with: a name without a space and any body give, as
/// `: name body ;`, that name and that body.
pub proof fn lemma_definition_parts(name: Seq<char>, body: Seq<char>)
    requires
        !name.contains(' '),
    ensures
        definition(seq![':', ' '] + name + seq![' '] + body + seq![' ', ';']) == Some((name, body)),
{
    let statement = seq![':', ' '] + name + seq![' '] + body + seq![' ', ';'];
    let inner = statement.subrange(2, statement.len() - 2);
    assert forall|j: int| 0 <= j < name.len() implies inner[j] != ' ' by {
        assert(inner[j] == name[j]);
    }
    lemma_next_index_is(inner, ' ', 0, name.len());
}

/// A definition is refused exactly when it is malformed or its name, in
/// lower case, reads as an integer; the error is `InvalidWord`.
pub proof fn lemma_refused_definitions(words: Map<Seq<char>, Word>, statement: Seq<char>)
    ensures
        defined(words, statement) is Err <==> definition(statement) is None || integer(
            lowercase(definition(statement).unwrap().0),
        ) is Some,
        defined(words, statement) is Err ==> defined(words, statement) == Err::<
            Map<Seq<char>, Word>,
            Error,
        >(Error::InvalidWord),
{
}

/// A statement that does not end in a semicolon is no definition.
pub proof fn lemma_unterminated_definition(statement: Seq<char>)
    requires
        statement.len() == 0 || statement.last() != ';',
    ensures
        definition(statement) is None,
{
}

/// After a definition the name stands for what the definition stored,
/// whether or not it is also the name of an operator: a token that writes
/// no integer and has the name's lower-case form expands to the stored body
/// and count.
pub proof fn lemma_definition_shadows(
    words: Map<Seq<char>, Word>,
    statement: Seq<char>,
    token: Seq<char>,
)
    requires
        defined(words, statement) is Ok,
        token.len() > 0,
        integer(token) is None,
        lowercase(token) == lowercase(definition(statement).unwrap().0),
    ensures
        expansion(defined(words, statement)->Ok_0, token) == (
            fields(stored(words, definition(statement).unwrap().1).body, ' '),
            stored(words, definition(statement).unwrap().1).count,
        ),
{
}

/// A definition changes the word of its own name and no other: what other
/// words store stays as it was when they were defined.
pub proof fn lemma_definition_spares_others(
    words: Map<Seq<char>, Word>,
    statement: Seq<char>,
    name: Seq<char>,
)
    requires
        defined(words, statement) is Ok,
        name != lowercase(definition(statement).unwrap().0),
    ensures
        defined(words, statement)->Ok_0.contains_key(name) == words.contains_key(name),
        words.contains_key(name) ==> defined(words, statement)->Ok_0[name] == words[name],
{
}

/// A token that writes no integer, names no defined word and no operator is
/// unknown, and leaves the stack as it is.
pub proof fn lemma_unknown_word(words: Map<Seq<char>, Word>, stack: Seq<Value>, token: Seq<char>)
    requires
        token.len() > 0,
        integer(token) is None,
        !words.contains_key(lowercase(token)),
        Op::of_token(trimmed(token)) is None,
    ensures
        token_run(words, stack, token) == (Outcome { stack, result: Err(Error::UnknownWord) }),
{
    lemma_single_token(stack, token);
}

/// Splitting always gives a field, and no field holds the separator.
pub proof fn lemma_fields_hold_no_separator(s: Seq<char>, sep: char, from: nat)
    requires
        from <= s.len(),
    ensures
        fields_from(s, sep, from).len() > 0,
        forall|i: int|
            0 <= i < fields_from(s, sep, from).len() ==> !(#[trigger] fields_from(s, sep, from)[i]).contains(
                sep,
            ),
    decreases s.len() - from,
{
    let end = next_index(s, sep, from);
    lemma_next_index_bounds(s, sep, from);
    if end < s.len() {
        lemma_fields_hold_no_separator(s, sep, end + 1);
    }
}

/// A first part joined to further parts is the first part, the separator,
/// and the further parts joined.
pub proof fn lemma_join_after_first(first: Seq<char>, rest: Seq<Seq<char>>, sep: char)
    requires
        rest.len() > 0,
    ensures
        join(seq![first] + rest, sep) == first + seq![sep] + join(rest, sep),
    decreases rest.len(),
{
    let front = (seq![first] + rest).drop_last();
    if rest.len() == 1 {
        assert(join(front, sep) == first);
    } else {
        assert(front =~= seq![first] + rest.drop_last());
        lemma_join_after_first(first, rest.drop_last(), sep);
    }
}

/// Joining the fields of a text with the separator gives the text back.
pub proof fn lemma_join_of_fields(s: Seq<char>, sep: char, from: nat)
    requires
        from <= s.len(),
    ensures
        join(fields_from(s, sep, from), sep) == s.subrange(from as int, s.len() as int),
    decreases s.len() - from,
{
    let end = next_index(s, sep, from);
    lemma_next_index_bounds(s, sep, from);
    if end < s.len() {
        lemma_join_of_fields(s, sep, end + 1);
        lemma_fields_hold_no_separator(s, sep, end + 1);
        lemma_join_after_first(s.subrange(from as int, end as int), fields_from(s, sep, end + 1), sep);
        assert(s.subrange(from as int, end as int) + seq![sep] + s.subrange(
            end as int + 1,
            s.len() as int,
        ) =~= s.subrange(from as int, s.len() as int));
    }
}

/// The two fields of a token, a space, and the token again.
pub proof fn lemma_fields_of_pair(name: Seq<char>)
    requires
        !name.contains(' '),
    ensures
        fields(name + seq![' '] + name, ' ') == seq![name, name],
{
    let s = name + seq![' '] + name;
    let n = name.len();
    assert forall|j: int| 0 <= j < n implies s[j] != ' ' by {
        assert(s[j] == name[j]);
    }
    assert forall|j: int| n + 1 <= j < s.len() implies s[j] != ' ' by {
        assert(s[j] == name[j - n - 1]);
    }
    lemma_next_index_is(s, ' ', 0, n);
    lemma_next_index_is(s, ' ', n + 1, s.len());
    assert(s.subrange(0, n as int) =~= name);
    assert(s.subrange(n as int + 1, s.len() as int) =~= name);
    assert(fields_from(s, ' ', n + 1) =~= seq![name]);
}

/// Whether the walk down from `text` comes to its end within `depth` words:
/// to a text of differing tokens, or to a token that names no word.
pub open spec fn ends_within(words: Map<Seq<char>, Word>, text: Seq<char>, depth: nat) -> bool
    decreases depth,
{
    let tokens = fields(text, ' ');
    ||| !uniform(tokens)
    ||| !words.contains_key(tokens[0])
    ||| (depth > 0 && ends_within(words, words[tokens[0]].body, (depth - 1) as nat))
}

/// A walk that comes to its end is not changed by a greater depth: the
/// bound on the depth only cuts walks that go round in a circle.
pub proof fn lemma_depth_beyond_end(
    words: Map<Seq<char>, Word>,
    text: Seq<char>,
    depth: nat,
    more: nat,
)
    requires
        ends_within(words, text, depth),
        depth <= more,
    ensures
        root_and_count(words, text, more) == root_and_count(words, text, depth),
    decreases depth,
{
    let tokens = fields(text, ' ');
    if uniform(tokens) && words.contains_key(tokens[0]) {
        lemma_depth_beyond_end(
            words,
            words[tokens[0]].body,
            (depth - 1) as nat,
            (more - 1) as nat,
        );
    }
}

/// Whether a stored body is the end of every walk that reaches it: its
/// tokens differ, or it is one token that names no word.
pub open spec fn is_root(words: Map<Seq<char>, Word>, body: Seq<char>) -> bool {
    !uniform(fields(body, ' ')) || (fields(body, ' ') == seq![body] && !words.contains_key(body))
}

/// A root comes down to itself, once, whatever the depth.
pub proof fn lemma_root_is_fixed(words: Map<Seq<char>, Word>, body: Seq<char>, depth: nat)
    requires
        is_root(words, body),
    ensures
        root_and_count(words, body, depth) == (body, 1nat),
{
}

/// Doubling a word stores no longer a body: a definition whose body is a
/// defined word written twice stores that word's body with twice its count,
/// where that body is a root.
pub proof fn lemma_doubling_keeps_body(words: Map<Seq<char>, Word>, name: Seq<char>)
    requires
        words.dom().finite(),
        words.contains_key(name),
        !name.contains(' '),
        is_root(words, words[name].body),
    ensures
        stored(words, name + seq![' '] + name) == (Word {
            body: words[name].body,
            count: capped(2 * words[name].count),
        }),
{
    lemma_fields_of_pair(name);
    assert(words.dom().len() > 0) by {
        if words.dom().len() == 0 {
            words.dom().lemma_len0_is_empty();
        }
    }
    let depth = words.dom().len();
    lemma_root_is_fixed(words, words[name].body, (depth - 1) as nat);
    assert(2 * words[name].count * 1 == 2 * words[name].count) by (nonlinear_arith);
}

/// The table after a chain of doublings: each name of `names` in turn is
/// defined as the name before it written twice, the first as `base` written
/// twice.
pub open spec fn doubled(
    words: Map<Seq<char>, Word>,
    base: Seq<char>,
    names: Seq<Seq<char>>,
) -> Map<Seq<char>, Word>
    decreases names.len(),
{
    if names.len() == 0 {
        words
    } else {
        let before = doubled(words, base, names.drop_last());
        let doubling = if names.len() == 1 {
            base
        } else {
            names[names.len() - 2]
        };
        before.insert(names.last(), stored(before, doubling + seq![' '] + doubling))
    }
}

/// A chain of doublings stores one body and a count.  However long the
/// chain, its last word holds the body of the word the chain began with,
/// and that word's count times two to the length of the chain, held at
/// `u64::MAX`: the table never writes the repetitions out.
pub proof fn lemma_doubling_chain(
    words: Map<Seq<char>, Word>,
    base: Seq<char>,
    names: Seq<Seq<char>>,
)
    requires
        words.dom().finite(),
        words.contains_key(base),
        !uniform(fields(words[base].body, ' ')),
        !base.contains(' '),
        forall|i: int| 0 <= i < names.len() ==> !(#[trigger] names[i]).contains(' '),
        names.len() > 0,
    ensures
        doubled(words, base, names).dom().finite(),
        doubled(words, base, names).contains_key(names.last()),
        doubled(words, base, names)[names.last()] == (Word {
            body: words[base].body,
            count: capped(words[base].count * pow2(names.len())),
        }),
    decreases names.len(),
{
    let body = words[base].body;
    let count = words[base].count;
    let n = names.len();
    let front = names.drop_last();
    let before = doubled(words, base, front);
    let doubling = if n == 1 {
        base
    } else {
        names[n - 2]
    };
    lemma_pow2_unfold(n);
    if n == 1 {
        lemma2_to64();
        lemma_doubling_keeps_body(before, doubling);
        assert(count * pow2(1) == 2 * count) by (nonlinear_arith)
            requires
                pow2(1) == 2,
        ;
    } else {
        let half = count * pow2((n - 1) as nat);
        lemma_doubling_chain(words, base, front);
        lemma_doubling_keeps_body(before, doubling);
        lemma_capped_product(half, 2);
        assert(half * 2 == count * (2 * pow2((n - 1) as nat))) by (nonlinear_arith)
            requires
                half == count * pow2((n - 1) as nat),
        ;
    }
}

/// The tokens `times` times over, written out.
pub open spec fn copies(tokens: Seq<Seq<char>>, times: nat) -> Seq<Seq<char>>
    decreases times,
{
    if times == 0 {
        Seq::empty()
    } else {
        tokens + copies(tokens, (times - 1) as nat)
    }
}

/// What the tokens of an execution statement stand for, written out in
/// full: the expansion of each, as often as its count says, one after the
/// other.
pub open spec fn written_out(words: Map<Seq<char>, Word>, tokens: Seq<Seq<char>>) -> Seq<Seq<char>>
    decreases tokens.len(),
{
    if tokens.len() == 0 {
        Seq::empty()
    } else {
        copies(expansion(words, tokens[0]).0, expansion(words, tokens[0]).1) + written_out(
            words,
            tokens.drop_first(),
        )
    }
}

/// Running one list of numbers and operators after another is running the
/// two as one list.
pub proof fn lemma_primitives_in_sequence(stack: Seq<Value>, head: Seq<Seq<char>>, tail: Seq<Seq<char>>)
    ensures
        primitives(stack, head + tail) == if primitives(stack, head).result is Err {
            primitives(stack, head)
        } else {
            primitives(primitives(stack, head).stack, tail)
        },
    decreases head.len(),
{
    if head.len() > 0 {
        let first = primitive(stack, head[0]);
        assert((head + tail).drop_first() =~= head.drop_first() + tail);
        if !(first.result is Err) {
            lemma_primitives_in_sequence(first.stack, head.drop_first(), tail);
        }
    }
}

/// Running tokens a number of times over is running them written out as
/// often.
pub proof fn lemma_repeatedly_is_copies(stack: Seq<Value>, tokens: Seq<Seq<char>>, times: nat)
    ensures
        repeatedly(stack, tokens, times) == primitives(stack, copies(tokens, times)),
    decreases times,
{
    if times > 0 {
        let once = primitives(stack, tokens);
        lemma_primitives_in_sequence(stack, tokens, copies(tokens, (times - 1) as nat));
        if !(once.result is Err) {
            lemma_repeatedly_is_copies(once.stack, tokens, (times - 1) as nat);
        }
    }
}

/// Executing a statement is one pass over its tokens written out in full:
/// what a word expands to is run as numbers and operators, left to right,
/// and not looked up again.
pub proof fn lemma_run_is_one_pass(
    words: Map<Seq<char>, Word>,
    stack: Seq<Value>,
    tokens: Seq<Seq<char>>,
)
    ensures
        tokens_run(words, stack, tokens) == primitives(stack, written_out(words, tokens)),
    decreases tokens.len(),
{
    if tokens.len() > 0 {
        let found = expansion(words, tokens[0]);
        let first = token_run(words, stack, tokens[0]);
        lemma_repeatedly_is_copies(stack, found.0, found.1);
        lemma_primitives_in_sequence(
            stack,
            copies(found.0, found.1),
            written_out(words, tokens.drop_first()),
        );
        if !(first.result is Err) {
            lemma_run_is_one_pass(words, first.stack, tokens.drop_first());
        }
    }
}

/// The statements from an index on, written one after the other, are the
/// text from that index on; and none of them is empty.
pub proof fn lemma_statements_from_cover(s: Seq<char>, from: nat)
    requires
        from <= s.len(),
    ensures
        statements_from(s, from).flatten() == s.subrange(from as int, s.len() as int),
        forall|i: int|
            0 <= i < statements_from(s, from).len() ==> (#[trigger] statements_from(s, from)[i]).len()
                > 0,
    decreases s.len() - from,
{
    if from < s.len() {
        let next = statement_end(s, from);
        let one = seq![s.subrange(from as int, next as int)];
        lemma_statement_end(s, from);
        lemma_statements_from_cover(s, next);
        lemma_flatten_concat(one, statements_from(s, next));
        one.lemma_flatten_one_element();
    }
}

/// Every statement is of one of two shapes: it begins with a colon and holds
/// no semicolon before its last character, or it holds no colon at all.
pub proof fn lemma_statement_shapes(s: Seq<char>, from: nat)
    requires
        from <= s.len(),
    ensures
        forall|i: int|
            #![trigger statements_from(s, from)[i]]
            0 <= i < statements_from(s, from).len() ==> {
                let statement = statements_from(s, from)[i];
                ||| statement.len() > 0 && statement[0] == ':' && !statement.drop_last().contains(';')
                ||| !statement.contains(':')
            },
    decreases s.len() - from,
{
    if from < s.len() {
        let next = statement_end(s, from);
        lemma_statement_end(s, from);
        lemma_statement_shapes(s, next);
        assert forall|i: int|
            #![trigger statements_from(s, from)[i]]
            0 <= i < statements_from(s, from).len() implies {
            let statement = statements_from(s, from)[i];
            ||| statement.len() > 0 && statement[0] == ':' && !statement.drop_last().contains(';')
            ||| !statement.contains(':')
        } by {
            if i > 0 {
                assert(statements_from(s, from)[i] == statements_from(s, next)[i - 1]);
            }
        }
    }
}

/// The statements of a text, written one after the other, are the text;
/// and no statement is empty.
pub proof fn lemma_statements_cover(s: Seq<char>)
    ensures
        statements(s).flatten() == s,
        forall|i: int| 0 <= i < statements(s).len() ==> (#[trigger] statements(s)[i]).len() > 0,
{
    lemma_statements_from_cover(s, 0);
}

} // verus!
