//! One line of a log: tokens between semicolons, read in pairs of a name and
//! a value.

use vstd::prelude::*;

verus! {

/// The byte that parts the tokens of a line.
pub const SEPARATOR: u8 = 59;

/// Why a field of a record cannot be read.
#[derive(Debug, Clone, Copy, PartialEq, Eq, Structural)]
pub enum RecordError {
    /// No pair of the line has the name asked for.
    MissingField,
    /// The value of the pair is not a number.
    MalformedValue,
    /// The line ends after the name of the pair.
    TruncatedLine,
}

/// The tokens of `line`: the stretches between its separators, in order.
/// There is one more token than there are separators, so a line always has
/// a token, and a token may be empty.
pub open spec fn split(line: Seq<u8>) -> Seq<Seq<u8>>
    decreases line.len(),
{
    if line.len() == 0 {
        seq![Seq::<u8>::empty()]
    } else {
        let before = split(line.drop_last());
        if line.last() == SEPARATOR {
            before.push(Seq::<u8>::empty())
        } else {
            before.drop_last().push(before.last().push(line.last()))
        }
    }
}

/// The tokens written out again, with a separator between each two.
pub open spec fn joined(tokens: Seq<Seq<u8>>) -> Seq<u8>
    decreases tokens.len(),
{
    if tokens.len() == 0 {
        Seq::<u8>::empty()
    } else if tokens.len() == 1 {
        tokens[0]
    } else {
        joined(tokens.drop_last()) + seq![SEPARATOR] + tokens.last()
    }
}

/// Whether `tokens` are the tokens of `line`: there is at least one, none
/// holds a separator, and joined they give the line.
pub open spec fn splits(line: Seq<u8>, tokens: Seq<Seq<u8>>) -> bool {
    &&& tokens.len() >= 1
    &&& forall|i: int| 0 <= i < tokens.len() ==> !(#[trigger] tokens[i]).contains(SEPARATOR)
    &&& joined(tokens) == line
}

/// The tokens of a line are free of separators and give the line back when
/// joined.
pub proof fn lemma_split_splits(line: Seq<u8>)
    ensures
        splits(line, split(line)),
    decreases line.len(),
{
    if line.len() == 0 {
        assert(split(line)[0] =~= Seq::<u8>::empty());
        assert(joined(split(line)) =~= line);
    } else {
        let rest = line.drop_last();
        let c = line.last();
        lemma_split_splits(rest);
        let before = split(rest);
        let now = split(line);
        assert(line =~= rest.push(c));
        if c == SEPARATOR {
            assert(now.drop_last() =~= before);
            assert(joined(now) =~= joined(before) + seq![SEPARATOR] + Seq::<u8>::empty());
            assert(joined(now) =~= line);
            assert forall|i: int| 0 <= i < now.len() implies !(#[trigger] now[i]).contains(
                SEPARATOR,
            ) by {
                if i < before.len() {
                    assert(now[i] == before[i]);
                }
            }
        } else {
            let grown = before.last().push(c);
            assert forall|i: int| 0 <= i < now.len() implies !(#[trigger] now[i]).contains(
                SEPARATOR,
            ) by {
                if i < before.len() - 1 {
                    assert(now[i] == before[i]);
                } else {
                    assert(now[i] == grown);
                    assert(!before.last().contains(SEPARATOR));
                    if grown.contains(SEPARATOR) {
                        let j = choose|j: int| 0 <= j < grown.len() && grown[j] == SEPARATOR;
                        assert(before.last()[j] == SEPARATOR);
                    }
                }
            }
            if before.len() == 1 {
                assert(joined(before) == before[0]);
                assert(joined(now) == now[0]);
                assert(joined(now) =~= line);
            } else {
                assert(now.drop_last() =~= before.drop_last());
                assert(joined(now) =~= joined(before.drop_last()) + seq![SEPARATOR] + grown);
                assert(joined(before) =~= joined(before.drop_last()) + seq![SEPARATOR]
                    + before.last());
                assert(joined(now) =~= line);
            }
        }
    }
}

/// A line has one list of tokens: whatever is free of separators and gives
/// the line when joined is the list that `split` gives.
pub proof fn lemma_split_is_unique(line: Seq<u8>, tokens: Seq<Seq<u8>>)
    requires
        splits(line, tokens),
    ensures
        tokens == split(line),
    decreases line.len(),
{
    let front = tokens.drop_last();
    let tail = tokens.last();
    if tokens.len() >= 2 {
        assert(joined(tokens) == joined(front) + seq![SEPARATOR] + tail);
        assert(joined(tokens).len() == joined(front).len() + 1 + tail.len());
    }
    if line.len() == 0 {
        assert(tokens.len() == 1);
        assert(tokens[0] =~= Seq::<u8>::empty());
        assert(tokens =~= split(line));
    } else {
        let rest = line.drop_last();
        let c = line.last();
        if tail.len() == 0 {
            assert(tokens.len() >= 2);
            assert(rest =~= joined(front));
            assert(c == SEPARATOR);
            assert forall|i: int| 0 <= i < front.len() implies !(#[trigger] front[i]).contains(
                SEPARATOR,
            ) by {
                assert(front[i] == tokens[i]);
            }
            lemma_split_is_unique(rest, front);
            assert(tail =~= Seq::<u8>::empty());
            assert(tokens =~= front.push(Seq::<u8>::empty()));
        } else {
            let cut = tail.drop_last();
            let shorter = front.push(cut);
            assert(c == tail.last());
            assert(tail[tail.len() - 1] == c);
            assert(!tail.contains(SEPARATOR));
            assert(c != SEPARATOR);
            assert(shorter.drop_last() =~= front);
            if tokens.len() >= 2 {
                assert(joined(shorter) == joined(front) + seq![SEPARATOR] + cut);
                assert(joined(shorter) =~= rest);
            } else {
                assert(joined(shorter) =~= rest);
            }
            assert forall|i: int| 0 <= i < shorter.len() implies !(#[trigger] shorter[i]).contains(
                SEPARATOR,
            ) by {
                if i < front.len() {
                    assert(shorter[i] == tokens[i]);
                } else {
                    if cut.contains(SEPARATOR) {
                        let j = choose|j: int| 0 <= j < cut.len() && cut[j] == SEPARATOR;
                        assert(tail[j] == SEPARATOR);
                    }
                }
            }
            lemma_split_is_unique(rest, shorter);
            assert(cut.push(c) =~= tail);
            assert(tokens =~= shorter.drop_last().push(shorter.last().push(c)));
        }
    }
}

/// What a list of tokens holds, each token as the sequence of its bytes.
pub open spec fn texts(tokens: Seq<Vec<u8>>) -> Seq<Seq<u8>> {
    Seq::new(tokens.len(), |i: int| tokens[i]@)
}

/// Parts `line` into its tokens.
pub fn split_line(line: &[u8]) -> (tokens: Vec<Vec<u8>>)
    ensures
        texts(tokens@) == split(line@),
{
    let mut done: Vec<Vec<u8>> = Vec::new();
    let mut current: Vec<u8> = Vec::new();
    let mut i: usize = 0;
    assert(line@.take(0) =~= Seq::<u8>::empty());
    assert(texts(done@).push(current@) =~= split(line@.take(0)));
    while i < line.len()
        invariant
            i <= line.len(),
            texts(done@).push(current@) == split(line@.take(i as int)),
        decreases line.len() - i,
    {
        let c = line[i];
        proof {
            let prefix = line@.take(i as int + 1);
            assert(prefix.drop_last() =~= line@.take(i as int));
            assert(prefix.last() == c);
        }
        let ghost before = texts(done@).push(current@);
        if c == SEPARATOR {
            done.push(current);
            current = Vec::new();
            assert(texts(done@) =~= before);
            assert(texts(done@).push(current@) =~= before.push(Seq::<u8>::empty()));
        } else {
            current.push(c);
            assert(texts(done@).push(current@) =~= before.drop_last().push(
                before.last().push(c),
            ));
        }
        i += 1;
    }
    assert(line@.take(i as int) =~= line@);
    let ghost before = texts(done@).push(current@);
    done.push(current);
    assert(texts(done@) =~= before);
    done
}

/// One token of a line.
#[derive(Debug, Clone, PartialEq, Eq)]
pub struct Token {
    /// The bytes of the token.
    pub text: Vec<u8>,
    /// The bit pattern of the binary32 number that the text denotes, or `None`
    /// where it denotes none. Reading numbers out of text is left to the one
    /// who builds the record: the library takes what it is given.
    pub number: Option<u32>,
}

/// One line of a log, as its tokens. The tokens at even places are names,
/// each followed by its value; a line with an odd number of tokens ends with
/// a name that has no value.
#[derive(Debug, Clone, PartialEq, Eq)]
pub struct Record {
    pub tokens: Vec<Token>,
}

/// A record as a sequence of tokens, each with its text and its number.
pub type Tokens = Seq<(Seq<u8>, Option<u32>)>;

impl View for Record {
    type V = Tokens;

    open spec fn view(&self) -> Tokens {
        Seq::new(self.tokens@.len(), |i: int| (self.tokens@[i].text@, self.tokens@[i].number))
    }
}

/// Whether the pair at place `k` (counted from 0) exists and has the name
/// `field`.
pub open spec fn named(tokens: Tokens, field: Seq<u8>, k: int) -> bool {
    0 <= k && 2 * k < tokens.len() && tokens[2 * k].0 == field
}

/// Whether the pair at place `k` is the first that has the name `field`.
pub open spec fn first_named(tokens: Tokens, field: Seq<u8>, k: int) -> bool {
    named(tokens, field, k) && forall|j: int| 0 <= j < k ==> !named(tokens, field, j)
}

/// The value of the pair at place `k`: its number, or why it has none.
pub open spec fn value_at(tokens: Tokens, k: int) -> Result<u32, RecordError> {
    if 2 * k + 1 >= tokens.len() {
        Err(RecordError::TruncatedLine)
    } else {
        match tokens[2 * k + 1].1 {
            Some(bits) => Ok(bits),
            None => Err(RecordError::MalformedValue),
        }
    }
}

/// The value of the first pair named `field` among the pairs from place `k`
/// on.
pub open spec fn lookup_from(tokens: Tokens, field: Seq<u8>, k: int) -> Result<u32, RecordError>
    decreases tokens.len() + 1 - 2 * k,
{
    if k < 0 || 2 * k >= tokens.len() {
        Err(RecordError::MissingField)
    } else if tokens[2 * k].0 == field {
        value_at(tokens, k)
    } else {
        lookup_from(tokens, field, k + 1)
    }
}

/// The value of the first pair named `field`.
pub open spec fn lookup(tokens: Tokens, field: Seq<u8>) -> Result<u32, RecordError> {
    lookup_from(tokens, field, 0)
}

proof fn lemma_lookup_from(tokens: Tokens, field: Seq<u8>, k: int)
    requires
        0 <= k,
        forall|j: int| 0 <= j < k ==> !named(tokens, field, j),
    ensures
        (forall|j: int| !named(tokens, field, j)) ==> lookup_from(tokens, field, k) == Err::<
            u32,
            RecordError,
        >(RecordError::MissingField),
        forall|j: int| first_named(tokens, field, j) ==> lookup_from(tokens, field, k) == value_at(
            tokens,
            j,
        ),
    decreases tokens.len() + 1 - 2 * k,
{
    if 2 * k >= tokens.len() {
        assert forall|j: int| first_named(tokens, field, j) implies false by {
            assert(named(tokens, field, j));
            if j < k {
                assert(!named(tokens, field, j));
            }
        }
    } else if tokens[2 * k].0 == field {
        assert(named(tokens, field, k));
        assert forall|j: int| first_named(tokens, field, j) implies j == k by {
            if j < k {
                assert(!named(tokens, field, j));
            }
        }
    } else {
        assert(!named(tokens, field, k));
        lemma_lookup_from(tokens, field, k + 1);
    }
}

/// Looking a name up gives the value of the first pair of that name, and
/// fails for want of the field exactly where no pair has the name.
pub proof fn lemma_lookup_is_first(tokens: Tokens, field: Seq<u8>)
    ensures
        forall|k: int| first_named(tokens, field, k) ==> lookup(tokens, field) == value_at(tokens, k),
        (forall|k: int| !named(tokens, field, k)) <==> lookup(tokens, field) == Err::<
            u32,
            RecordError,
        >(RecordError::MissingField),
{
    lemma_lookup_from(tokens, field, 0);
    if exists|k: int| named(tokens, field, k) {
        let k = choose|k: int| named(tokens, field, k);
        lemma_some_is_first(tokens, field, k);
        let f = choose|f: int| first_named(tokens, field, f);
        assert(lookup(tokens, field) == value_at(tokens, f));
    }
}

proof fn lemma_some_is_first(tokens: Tokens, field: Seq<u8>, k: int)
    requires
        named(tokens, field, k),
    ensures
        exists|f: int| first_named(tokens, field, f),
    decreases k,
{
    if exists|j: int| 0 <= j < k && named(tokens, field, j) {
        let j = choose|j: int| 0 <= j < k && named(tokens, field, j);
        lemma_some_is_first(tokens, field, j);
    } else {
        assert(first_named(tokens, field, k));
    }
}

/// Tells whether two runs of bytes are the same.
pub fn same_bytes(a: &[u8], b: &[u8]) -> (r: bool)
    ensures
        r == (a@ == b@),
{
    if a.len() != b.len() {
        return false;
    }
    let mut i: usize = 0;
    while i < a.len()
        invariant
            i <= a.len(),
            a.len() == b.len(),
            forall|j: int| 0 <= j < i ==> a@[j] == b@[j],
        decreases a.len() - i,
    {
        if a[i] != b[i] {
            return false;
        }
        i += 1;
    }
    assert(a@ =~= b@);
    true
}

impl Record {
    /// The record of `line`: its tokens, none of them given a number yet.
    pub fn parse(line: &[u8]) -> (record: Record)
        ensures
            record@.len() == split(line@).len(),
            forall|i: int|
                0 <= i < record@.len() ==> #[trigger] record@[i] == (split(line@)[i], None::<u32>),
    {
        let mut parts = split_line(line);
        let ghost all = texts(parts@);
        let mut tokens: Vec<Token> = Vec::new();
        let n = parts.len();
        let mut i: usize = 0;
        while i < n
            invariant
                i <= n,
                n == parts.len(),
                n == all.len(),
                tokens.len() == i,
                forall|j: int| i <= j < n ==> (#[trigger] parts@[j])@ == all[j],
                forall|j: int|
                    0 <= j < i ==> (#[trigger] tokens@[j]).text@ == all[j] && tokens@[j].number
                        is None,
            decreases n - i,
        {
            let mut text: Vec<u8> = Vec::new();
            core::mem::swap(&mut text, &mut parts[i]);
            tokens.push(Token { text, number: None });
            i += 1;
        }
        Record { tokens }
    }

    /// The number of the first pair named `field`.
    ///
    /// Fails with `MissingField` where no pair has the name, with
    /// `TruncatedLine` where the line ends after the name of that pair, and
    /// with `MalformedValue` where the value of that pair has no number.
    pub fn get(&self, field: &[u8]) -> (r: Result<u32, RecordError>)
        ensures
            r == lookup(self@, field@),
    {
        let n = self.tokens.len();
        let mut i: usize = 0;
        let ghost mut k: int = 0;
        while i < n
            invariant
                n == self.tokens.len(),
                i == 2 * k,
                0 <= k,
                lookup(self@, field@) == lookup_from(self@, field@, k),
            decreases n - i,
        {
            if same_bytes(self.tokens[i].text.as_slice(), field) {
                assert(self@[2 * k].0 == field@);
                if i + 1 < n {
                    return match self.tokens[i + 1].number {
                        Some(bits) => Ok(bits),
                        None => Err(RecordError::MalformedValue),
                    };
                } else {
                    return Err(RecordError::TruncatedLine);
                }
            }
            assert(self@[2 * k].0 != field@);
            if i + 1 >= n {
                assert(lookup_from(self@, field@, k + 1) == Err::<u32, RecordError>(
                    RecordError::MissingField,
                ));
                return Err(RecordError::MissingField);
            }
            i += 2;
            proof {
                k = k + 1;
            }
        }
        Err(RecordError::MissingField)
    }
}

} // verus!
