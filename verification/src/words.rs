//! The word table: what a definition stores, and how it is found again.
//!
//! A stored word is a body and a count: calling the word runs the tokens of
//! the body, the whole `count` times over.  A definition that only repeats
//! one word is stored as that word's body with a larger count, so that
//! doubling a word again and again never writes the repetitions out.

use vstd::prelude::*;
use vstd::slice::slice_to_vec;
use crate::ops::Error;
use crate::text::fields;
use crate::text::integer;
use crate::text::join;
use crate::text::parse_int;
use crate::text::same;
use crate::text::split;
use crate::text::texts;

verus! {

/// The model of a stored word.
pub struct Word {
    /// The tokens that a call runs, with single spaces between them.
    pub body: Seq<char>,
    /// How many times over a call runs them.
    pub count: nat,
}

/// Whether all the tokens are the same one.
pub open spec fn uniform(tokens: Seq<Seq<char>>) -> bool {
    forall|i: int| 0 <= i < tokens.len() ==> #[trigger] tokens[i] == tokens[0]
}

/// A count as the table can hold it: what exceeds `u64::MAX` is held there.
pub open spec fn capped(count: nat) -> nat {
    if count > u64::MAX {
        u64::MAX as nat
    } else {
        count
    }
}

/// The body and the count that a text of equal tokens comes down to.
///
/// Where the token is a defined word, the text is that word's stored body
/// taken `tokens × count` times, and the stored body is looked at in the same
/// way in turn; where it is not, the token itself is the body.  A text of
/// differing tokens is its own body, once.  The walk follows at most `depth`
/// words and takes the token it has then reached for the root: a table can
/// lead a walk round in a circle, and the bound cuts it.
pub open spec fn root_and_count(
    words: Map<Seq<char>, Word>,
    text: Seq<char>,
    depth: nat,
) -> (Seq<char>, nat)
    decreases depth,
{
    let tokens = fields(text, ' ');
    if !uniform(tokens) {
        (text, 1)
    } else if depth > 0 && words.contains_key(tokens[0]) {
        let word = words[tokens[0]];
        let below = root_and_count(words, word.body, (depth - 1) as nat);
        (below.0, tokens.len() * word.count * below.1)
    } else {
        (tokens[0], tokens.len())
    }
}

/// What stands in place of one token of a definition's body: the stored body
/// of the word that the token names, as often as its count says, or the
/// token itself where it names none.
pub open spec fn replacement(words: Map<Seq<char>, Word>, token: Seq<char>) -> Seq<Seq<char>> {
    if words.contains_key(token) {
        Seq::new(words[token].count, |i: int| words[token].body)
    } else {
        seq![token]
    }
}

/// The replacements of all the tokens, in order.
pub open spec fn replacements(words: Map<Seq<char>, Word>, tokens: Seq<Seq<char>>) -> Seq<
    Seq<char>,
>
    decreases tokens.len(),
{
    if tokens.len() == 0 {
        Seq::empty()
    } else {
        replacements(words, tokens.drop_last()) + replacement(words, tokens.last())
    }
}

/// A body with every token that names a word replaced by what that word
/// stores.  What is put in is not looked at again.
pub open spec fn substituted(words: Map<Seq<char>, Word>, body: Seq<char>) -> Seq<char> {
    join(replacements(words, fields(body, ' ')), ' ')
}

/// What a definition with this body stores, given the words defined so far.
/// A body of equal tokens is stored as its root with the count of the
/// repetitions; any other body is stored once, with the words it names
/// replaced by what they store now.
pub open spec fn stored(words: Map<Seq<char>, Word>, body: Seq<char>) -> Word {
    if uniform(fields(body, ' ')) {
        let found = root_and_count(words, body, words.dom().len());
        Word { body: found.0, count: capped(found.1) }
    } else {
        Word { body: substituted(words, body), count: 1 }
    }
}

/// A word as the table holds it.
pub struct WordEntry {
    pub name: Vec<char>,
    pub body: Vec<char>,
    pub count: u64,
}

impl WordEntry {
    /// The word that the entry stores.
    pub open spec fn word(&self) -> Word {
        Word { body: self.body@, count: self.count as nat }
    }
}

/// Whether no two entries have the same name.
spec fn distinct(entries: Seq<WordEntry>) -> bool {
    forall|i: int, j: int|
        0 <= i < j < entries.len() ==> (#[trigger] entries[i]).name@ != (#[trigger] entries[j]).name@
}

/// Whether some entry has this name.
spec fn holds(entries: Seq<WordEntry>, name: Seq<char>) -> bool {
    exists|i: int| 0 <= i < entries.len() && (#[trigger] entries[i]).name@ == name
}

/// The index of an entry with this name.
spec fn index_of(entries: Seq<WordEntry>, name: Seq<char>) -> int {
    choose|i: int| 0 <= i < entries.len() && (#[trigger] entries[i]).name@ == name
}

/// The map from names to words that the entries make up.
spec fn table(entries: Seq<WordEntry>) -> Map<Seq<char>, Word> {
    Map::new(
        |name: Seq<char>| holds(entries, name),
        |name: Seq<char>| entries[index_of(entries, name)].word(),
    )
}

proof fn lemma_table_at(entries: Seq<WordEntry>, i: int)
    requires
        distinct(entries),
        0 <= i < entries.len(),
    ensures
        table(entries).contains_key(entries[i].name@),
        table(entries)[entries[i].name@] == entries[i].word(),
{
}

proof fn lemma_table_push(entries: Seq<WordEntry>, entry: WordEntry)
    requires
        distinct(entries),
        !holds(entries, entry.name@),
    ensures
        distinct(entries.push(entry)),
        table(entries.push(entry)) == table(entries).insert(entry.name@, entry.word()),
{
    let pushed = entries.push(entry);
    assert forall|name: Seq<char>| holds(pushed, name) <==> (name == entry.name@ || holds(
        entries,
        name,
    )) by {
        if holds(entries, name) {
            assert(pushed[index_of(entries, name)].name@ == name);
        }
        if name == entry.name@ {
            assert(pushed[entries.len() as int].name@ == name);
        }
    }
    assert forall|name: Seq<char>| holds(pushed, name) implies #[trigger] table(pushed)[name]
        == table(entries).insert(entry.name@, entry.word())[name] by {
        if name != entry.name@ {
            lemma_table_at(entries, index_of(pushed, name));
        }
    }
}

proof fn lemma_table_update(entries: Seq<WordEntry>, at: int, entry: WordEntry)
    requires
        distinct(entries),
        0 <= at < entries.len(),
        entries[at].name@ == entry.name@,
    ensures
        distinct(entries.update(at, entry)),
        table(entries.update(at, entry)) == table(entries).insert(entry.name@, entry.word()),
{
    let updated = entries.update(at, entry);
    assert forall|name: Seq<char>| holds(updated, name) <==> holds(entries, name) by {
        if holds(entries, name) {
            assert(updated[index_of(entries, name)].name@ == name);
        }
    }
    assert forall|name: Seq<char>| holds(updated, name) implies #[trigger] table(updated)[name]
        == table(entries).insert(entry.name@, entry.word())[name] by {
        if name != entry.name@ {
            lemma_table_at(entries, index_of(updated, name));
        }
    }
}

proof fn lemma_table_size(entries: Seq<WordEntry>)
    requires
        distinct(entries),
    ensures
        table(entries).dom().finite(),
        table(entries).dom().len() == entries.len(),
    decreases entries.len(),
{
    if entries.len() == 0 {
        assert(table(entries).dom() =~= Set::<Seq<char>>::empty());
    } else {
        let front = entries.drop_last();
        let last = entries.last();
        lemma_table_size(front);
        lemma_table_push(front, last);
        assert(front.push(last) =~= entries);
    }
}

/// Multiplying under the cap may cap at every step or once at the end.
pub proof fn lemma_capped_product(x: nat, y: nat)
    ensures
        capped(capped(x) * y) == capped(x * y),
{
    if x > u64::MAX {
        if y > 0 {
            assert(x * y >= x && u64::MAX * y >= u64::MAX) by (nonlinear_arith)
                requires
                    y >= 1,
                    x >= 0,
            ;
        } else {
            assert(x * y == 0 && capped(x) * y == 0) by (nonlinear_arith)
                requires
                    y == 0,
            ;
        }
    }
}

/// The product of two counts, held at `u64::MAX` where it exceeds it.
fn scale(a: u64, b: u64) -> (product: u64)
    ensures
        product == capped(a as nat * b as nat),
{
    match a.checked_mul(b) {
        Some(product) => product,
        None => u64::MAX,
    }
}

/// Whether all the tokens are the same one.
pub fn all_same(tokens: &Vec<Vec<char>>) -> (equal: bool)
    ensures
        equal == uniform(texts(tokens@)),
{
    let mut i: usize = 1;
    while i < tokens.len()
        invariant
            1 <= i,
            forall|j: int| 0 <= j < i && j < tokens@.len() ==> #[trigger] texts(tokens@)[j] == texts(
                tokens@,
            )[0],
        decreases tokens@.len() - i,
    {
        if !same(tokens[i].as_slice(), tokens[0].as_slice()) {
            assert(texts(tokens@)[i as int] != texts(tokens@)[0]);
            return false;
        }
        i += 1;
    }
    true
}

/// Writes `piece` at the end of `out`, after a space unless it is the first.
fn append(out: &mut Vec<char>, first: bool, piece: &[char])
    ensures
        final(out)@ == if first {
            old(out)@ + piece@
        } else {
            old(out)@ + seq![' '] + piece@
        },
{
    if !first {
        out.push(' ');
    }
    out.extend_from_slice(piece);
}

/// The words defined so far, by lower-case name.
pub struct WordTable {
    entries: Vec<WordEntry>,
}

impl View for WordTable {
    type V = Map<Seq<char>, Word>;

    closed spec fn view(&self) -> Map<Seq<char>, Word> {
        table(self.entries@)
    }
}

impl WordTable {
    /// Whether the table is in order: no name stands in it twice.
    pub closed spec fn wf(&self) -> bool {
        distinct(self.entries@)
    }

    /// A table in order holds finitely many words.
    pub proof fn lemma_finite(&self)
        requires
            self.wf(),
        ensures
            self@.dom().finite(),
    {
        lemma_table_size(self.entries@);
    }

    /// A table without words.
    pub fn new() -> (words: WordTable)
        ensures
            words.wf(),
            words@ == Map::<Seq<char>, Word>::empty(),
    {
        WordTable { entries: Vec::new() }
    }

    /// The number of words defined.
    pub fn len(&self) -> (n: usize)
        requires
            self.wf(),
        ensures
            self@.dom().finite(),
            n == self@.dom().len(),
    {
        proof {
            lemma_table_size(self.entries@);
        }
        self.entries.len()
    }

    /// Where the entry of `name` stands, or the number of entries where
    /// there is none.
    fn position(&self, name: &[char]) -> (at: usize)
        ensures
            at <= self.entries@.len(),
            at < self.entries@.len() ==> self.entries@[at as int].name@ == name@,
            at == self.entries@.len() ==> !holds(self.entries@, name@),
    {
        let mut at: usize = 0;
        while at < self.entries.len()
            invariant
                at <= self.entries@.len(),
                forall|j: int| 0 <= j < at ==> (#[trigger] self.entries@[j]).name@ != name@,
            decreases self.entries@.len() - at,
        {
            if same(self.entries[at].name.as_slice(), name) {
                return at;
            }
            at += 1;
        }
        at
    }

    /// The entry of the word with this name, if it is defined.
    pub fn get(&self, name: &[char]) -> (found: Option<&WordEntry>)
        requires
            self.wf(),
        ensures
            match found {
                Some(entry) => self@.contains_key(name@) && entry.name@ == name@ && entry.word()
                    == self@[name@],
                None => !self@.contains_key(name@),
            },
    {
        let at: usize = self.position(name);
        if at < self.entries.len() {
            proof {
                lemma_table_at(self.entries@, at as int);
            }
            Some(&self.entries[at])
        } else {
            None
        }
    }

    /// Stores a word under `name`, in place of the one that stood there.
    pub fn insert(&mut self, name: Vec<char>, body: Vec<char>, count: u64)
        requires
            old(self).wf(),
        ensures
            final(self).wf(),
            final(self)@ == old(self)@.insert(name@, Word { body: body@, count: count as nat }),
    {
        let at: usize = self.position(name.as_slice());
        let entry = WordEntry { name, body, count };
        proof {
            if at < self.entries@.len() {
                lemma_table_update(self.entries@, at as int, entry);
            } else {
                lemma_table_push(self.entries@, entry);
            }
        }
        if at < self.entries.len() {
            self.entries.set(at, entry);
        } else {
            self.entries.push(entry);
        }
    }

    /// Comes down from a text of equal tokens to its root and count; see
    /// [`root_and_count`].  The count is held at `u64::MAX`.
    pub fn get_stored_root_and_count(&self, value: &[char]) -> (found: (Vec<char>, u64))
        requires
            self.wf(),
        ensures
            self@.dom().finite(),
            found.0@ == root_and_count(self@, value@, self@.dom().len()).0,
            found.1 == capped(root_and_count(self@, value@, self@.dom().len()).1),
    {
        let mut text: Vec<char> = slice_to_vec(value);
        let mut count: u64 = 1;
        let mut depth: usize = self.len();
        let ghost whole = root_and_count(self@, value@, self@.dom().len());
        loop
            invariant
                self.wf(),
                self@.dom().finite(),
                whole == root_and_count(self@, value@, self@.dom().len()),
                whole.0 == root_and_count(self@, text@, depth as nat).0,
                capped(whole.1) == capped(count as nat * root_and_count(self@, text@, depth as nat).1),
            decreases depth,
        {
            let tokens: Vec<Vec<char>> = split(text.as_slice(), ' ');
            if !all_same(&tokens) {
                return (text, count);
            }
            let ghost before = count as nat;
            let ghost k = tokens@.len() as nat;
            count = scale(count, tokens.len() as u64);
            let root: Vec<char> = slice_to_vec(tokens[0].as_slice());
            if depth == 0 {
                return (root, count);
            }
            match self.get(root.as_slice()) {
                None => {
                    return (root, count);
                },
                Some(entry) => {
                    let ghost m = entry.count as nat;
                    let ghost below = root_and_count(self@, entry.body@, (depth - 1) as nat);
                    proof {
                        lemma_capped_product(before * k, m);
                        lemma_capped_product(before * k * m, below.1);
                        lemma_capped_product(capped(before * k) * m, below.1);
                        assert(before * (k * m * below.1) == before * k * m * below.1)
                            by (nonlinear_arith);
                    }
                    count = scale(count, entry.count);
                    text = slice_to_vec(entry.body.as_slice());
                    depth = depth - 1;
                },
            }
        }
    }

    /// Replaces every token of `value` that names a word by what the word
    /// stores; see [`substituted`].
    pub fn replace_params_with_values(&self, value: &[char]) -> (replaced: Vec<char>)
        requires
            self.wf(),
        ensures
            replaced@ == substituted(self@, value@),
    {
        let tokens: Vec<Vec<char>> = split(value, ' ');
        let mut replaced: Vec<char> = Vec::new();
        let ghost mut parts: Seq<Seq<char>> = Seq::empty();
        let mut first: bool = true;
        let mut i: usize = 0;
        while i < tokens.len()
            invariant
                self.wf(),
                i <= tokens@.len(),
                parts == replacements(self@, texts(tokens@).take(i as int)),
                replaced@ == join(parts, ' '),
                first == (parts.len() == 0),
            decreases tokens@.len() - i,
        {
            let ghost token = tokens@[i as int]@;
            let ghost base = parts;
            match self.get(tokens[i].as_slice()) {
                Some(entry) => {
                    let mut j: u64 = 0;
                    while j < entry.count
                        invariant
                            j <= entry.count,
                            parts == base + Seq::new(j as nat, |k: int| entry.body@),
                            replaced@ == join(parts, ' '),
                            first == (parts.len() == 0),
                        decreases entry.count - j,
                    {
                        append(&mut replaced, first, entry.body.as_slice());
                        first = false;
                        proof {
                            let ghost longer = parts.push(entry.body@);
                            assert(longer.drop_last() =~= parts);
                            parts = longer;
                        }
                        j += 1;
                    }
                },
                None => {
                    append(&mut replaced, first, tokens[i].as_slice());
                    first = false;
                    proof {
                        let ghost longer = parts.push(token);
                        assert(longer.drop_last() =~= parts);
                        parts = longer;
                    }
                },
            }
            proof {
                assert(texts(tokens@).take(i + 1).drop_last() =~= texts(tokens@).take(i as int));
            }
            i += 1;
        }
        assert(texts(tokens@).take(tokens@.len() as int) =~= texts(tokens@));
        replaced
    }

    /// Defines `key`, a name in lower case, by `value`, the text of a body.
    /// A name that reads as an integer is refused and defines nothing.
    pub fn set_param(&mut self, key: Vec<char>, value: &[char]) -> (result: Result<(), Error>)
        requires
            old(self).wf(),
        ensures
            final(self).wf(),
            integer(key@) is Some ==> result == Err::<(), Error>(Error::InvalidWord) && final(self)@
                == old(self)@,
            integer(key@) is None ==> result == Ok::<(), Error>(()) && final(self)@ == old(self)@.insert(
                key@,
                stored(old(self)@, value@),
            ),
    {
        if parse_int(key.as_slice()).is_some() {
            return Err(Error::InvalidWord);
        }
        let tokens: Vec<Vec<char>> = split(value, ' ');
        if all_same(&tokens) {
            let (root, count) = self.get_stored_root_and_count(value);
            self.insert(key, root, count);
        } else {
            let body: Vec<char> = self.replace_params_with_values(value);
            self.insert(key, body, 1);
        }
        Ok(())
    }
}

} // verus!
