//! The cycles of a dataset in the order in which they are written out.

use itertools::Itertools;
use vstd::prelude::*;
use vstd::std_specs::hash::*;
use vstd::std_specs::iter::IteratorSpec;
use crate::aggregate::{dataset_of, Dataset};
use crate::extremum::MinMaxValue;

verus! {

/// Whether `keys` ascend, each strictly above the one before.
pub open spec fn ascending(keys: Seq<usize>) -> bool {
    forall|i: int, j: int| 0 <= i < j < keys.len() ==> keys[i] < keys[j]
}

/// `Itertools::sorted` on a list of numbers: the same numbers, each as often
/// as before, in ascending order.
#[verifier::external_body]
fn sorted(keys: Vec<usize>) -> (r: Vec<usize>)
    ensures
        r@.to_multiset() == keys@.to_multiset(),
        forall|i: int, j: int| 0 <= i <= j < r@.len() ==> r@[i] <= r@[j],
{
    keys.into_iter().sorted().collect()
}

/// A list that holds the numbers of a list without duplicates, each as often,
/// and in order, ascends strictly and holds the same set.
proof fn lemma_same_numbers(found: Seq<usize>, keys: Seq<usize>)
    requires
        found.no_duplicates(),
        keys.to_multiset() == found.to_multiset(),
        forall|i: int, j: int| 0 <= i <= j < keys.len() ==> keys[i] <= keys[j],
    ensures
        ascending(keys),
        keys.to_set() == found.to_set(),
        keys.len() == found.len(),
{
    broadcast use vstd::seq_lib::group_to_multiset_ensures;

    found.lemma_multiset_has_no_duplicates();
    keys.lemma_multiset_has_no_duplicates_conv();
    assert forall|k: usize| keys.to_set().contains(k) <==> found.to_set().contains(k) by {
        assert(keys.contains(k) <==> keys.to_multiset().count(k) > 0);
        assert(found.contains(k) <==> found.to_multiset().count(k) > 0);
    }
    assert(keys.to_set() =~= found.to_set());
    assert(keys.len() == keys.to_multiset().len());
    assert(found.len() == found.to_multiset().len());
}

/// The keys of `dataset` in ascending order.
pub fn sorted_keys(dataset: &Dataset) -> (keys: Vec<usize>)
    ensures
        ascending(keys@),
        keys@.to_set() == dataset@.dom(),
        keys@.len() == dataset@.len(),
{
    broadcast use group_hash_axioms;

    let mut found: Vec<usize> = Vec::new();
    for key in it: dataset.keys()
        invariant
            it.seq() == spec_keys_iter(dataset).remaining(),
            found@.len() == it.index(),
            forall|j: int| 0 <= j < found@.len() ==> found@[j] == *it.seq()[j],
    {
        found.push(*key);
    }
    let keys = sorted(found);
    proof {
        let walked = spec_keys_iter(dataset).remaining();
        assert(found@ =~= walked.unref());
        assert(found@.no_duplicates()) by {
            assert forall|i: int, j: int|
                0 <= i < found@.len() && 0 <= j < found@.len() && i != j implies found@[i]
                != found@[j] by {
                assert(walked[i] != walked[j]);
            }
        }
        lemma_same_numbers(found@, keys@);
    }
    keys
}

/// Whether `keys` are the keys of `dataset` in the order of writing: all of
/// them, ascending.
pub open spec fn is_order_of(dataset: Map<usize, (MinMaxValue, usize)>, keys: Seq<usize>) -> bool {
    ascending(keys) && keys.to_set() == dataset.dom()
}

/// The keys of `dataset` in the order of writing.
pub open spec fn key_order(dataset: Map<usize, (MinMaxValue, usize)>) -> Seq<usize> {
    choose|keys: Seq<usize>| is_order_of(dataset, keys)
}

/// A dataset has one order of writing, however its keys were walked: two
/// lists that both hold all its keys, ascending, are the same list. So the
/// rows of a dataset, and with them its lines, come out the same each time.
pub proof fn lemma_order_is_unique(
    dataset: Map<usize, (MinMaxValue, usize)>,
    a: Seq<usize>,
    b: Seq<usize>,
)
    requires
        is_order_of(dataset, a),
        is_order_of(dataset, b),
    ensures
        a == b,
        a == key_order(dataset),
{
    lemma_ascending_same_set(a, b);
    lemma_ascending_same_set(a, key_order(dataset));
}

/// Two ascending lists of the same numbers are the same list.
proof fn lemma_ascending_same_set(a: Seq<usize>, b: Seq<usize>)
    requires
        ascending(a),
        ascending(b),
        a.to_set() == b.to_set(),
    ensures
        a == b,
    decreases a.len(),
{
    if a.len() == 0 {
        if b.len() > 0 {
            assert(b.to_set().contains(b[0]));
            assert(a.contains(b[0]));
        }
        assert(a =~= b);
    } else {
        let top = a.last();
        assert(a.to_set().contains(top));
        assert(b.contains(top));
        assert(b.to_set().contains(b.last()));
        assert(a.contains(b.last()));
        assert(b.last() == top);
        assert forall|k: usize| a.drop_last().to_set().contains(k) <==> b.drop_last().to_set().contains(
            k,
        ) by {
            if a.drop_last().contains(k) {
                let i = choose|i: int| 0 <= i < a.drop_last().len() && a.drop_last()[i] == k;
                assert(a[i] == k);
                assert(a.to_set().contains(k));
                assert(b.contains(k));
                let j = choose|j: int| 0 <= j < b.len() && b[j] == k;
                assert(b.drop_last()[j] == k);
            }
            if b.drop_last().contains(k) {
                let i = choose|i: int| 0 <= i < b.drop_last().len() && b.drop_last()[i] == k;
                assert(b[i] == k);
                assert(b.to_set().contains(k));
                assert(a.contains(k));
                let j = choose|j: int| 0 <= j < a.len() && a[j] == k;
                assert(a.drop_last()[j] == k);
            }
        }
        assert(a.drop_last().to_set() =~= b.drop_last().to_set());
        lemma_ascending_same_set(a.drop_last(), b.drop_last());
        assert(a =~= a.drop_last().push(top));
        assert(b =~= b.drop_last().push(top));
    }
}

/// One line of the output: a cycle with its place in the order of writing,
/// counted from 1.
#[derive(Debug, Clone, Copy, PartialEq, Eq)]
pub struct OutputRow {
    pub index: usize,
    pub range: MinMaxValue,
    pub samples: usize,
}

/// The rows of `dataset`: its cycles in the order of writing.
pub open spec fn rows_of(dataset: Map<usize, (MinMaxValue, usize)>) -> Seq<OutputRow> {
    let keys = key_order(dataset);
    Seq::new(
        keys.len(),
        |i: int|
            OutputRow {
                index: (i + 1) as usize,
                range: dataset[keys[i]].0,
                samples: dataset[keys[i]].1,
            },
    )
}

/// The cycles of `dataset` in the order of writing: by ascending key, each
/// with its place in that order.
pub fn output_rows(dataset: &Dataset) -> (rows: Vec<OutputRow>)
    ensures
        rows@ == rows_of(dataset@),
        rows@.len() == dataset@.len(),
{
    broadcast use group_hash_axioms;

    let keys = sorted_keys(dataset);
    proof {
        lemma_order_is_unique(dataset@, keys@, keys@);
    }
    let mut rows: Vec<OutputRow> = Vec::new();
    let mut i: usize = 0;
    while i < keys.len()
        invariant
            i <= keys.len(),
            keys@ == key_order(dataset@),
            keys@.to_set() == dataset@.dom(),
            rows@.len() == i,
            forall|j: int| 0 <= j < i ==> rows@[j] == rows_of(dataset@)[j],
        decreases keys.len() - i,
    {
        assert(keys@.to_set().contains(keys@[i as int]));
        let entry = dataset.get(&keys[i]);
        match entry {
            Some(cycle) => {
                rows.push(OutputRow { index: i + 1, range: cycle.0, samples: cycle.1 });
            },
            None => {
                assert(false);
            },
        }
        i += 1;
    }
    assert(rows@ =~= rows_of(dataset@));
    rows
}

/// The rows of the dataset of a run are its cycles in the order in which
/// they closed: the place of each in the order of writing is its key.
pub proof fn lemma_rows_of_run(cycles: Seq<(MinMaxValue, nat)>)
    requires
        cycles.len() <= usize::MAX,
    ensures
        key_order(dataset_of(cycles)) == Seq::new(cycles.len(), |i: int| (i + 1) as usize),
        rows_of(dataset_of(cycles)) == Seq::new(
            cycles.len(),
            |i: int|
                OutputRow {
                    index: (i + 1) as usize,
                    range: cycles[i].0,
                    samples: cycles[i].1 as usize,
                },
        ),
{
    let dataset = dataset_of(cycles);
    let keys = Seq::new(cycles.len(), |i: int| (i + 1) as usize);
    assert forall|k: usize| keys.to_set().contains(k) <==> dataset.dom().contains(k) by {
        if dataset.dom().contains(k) {
            assert(keys[k - 1] == k);
        }
    }
    assert(keys.to_set() =~= dataset.dom());
    lemma_order_is_unique(dataset, keys, keys);
    assert(rows_of(dataset) =~= Seq::new(
        cycles.len(),
        |i: int|
            OutputRow {
                index: (i + 1) as usize,
                range: cycles[i].0,
                samples: cycles[i].1 as usize,
            },
    ));
}

/// The decimal digits of `n`, as ASCII bytes, without leading zeros.
pub open spec fn decimal(n: nat) -> Seq<u8>
    decreases n,
{
    if n < 10 {
        seq![(48 + n) as u8]
    } else {
        decimal(n / 10).push((48 + n % 10) as u8)
    }
}

/// The bytes of `;min;`.
pub open spec fn min_label() -> Seq<u8> {
    seq![59u8, 109u8, 105u8, 110u8, 59u8]
}

/// The bytes of `;max;`.
pub open spec fn max_label() -> Seq<u8> {
    seq![59u8, 109u8, 97u8, 120u8, 59u8]
}

/// The bytes of `;cycles;`.
pub open spec fn cycles_label() -> Seq<u8> {
    seq![59u8, 99u8, 121u8, 99u8, 108u8, 101u8, 115u8, 59u8]
}

/// The bytes that end a line: a semicolon and a line feed.
pub open spec fn line_end() -> Seq<u8> {
    seq![59u8, 10u8]
}

/// The line of a row: its place, `;min;`, the text of the smallest reading,
/// `;max;`, the text of the largest, `;cycles;`, the sample count, and the
/// end of the line.
pub open spec fn line_of(index: nat, min: Seq<u8>, max: Seq<u8>, samples: nat) -> Seq<u8> {
    decimal(index) + min_label() + min + max_label() + max + cycles_label() + decimal(samples)
        + line_end()
}

/// Appends the decimal digits of `n` to `out`.
pub fn push_decimal(out: &mut Vec<u8>, n: usize)
    ensures
        final(out)@ == old(out)@ + decimal(n as nat),
    decreases n,
{
    if n >= 10 {
        push_decimal(out, n / 10);
    }
    let digit: u8 = 48 + (n % 10) as u8;
    out.push(digit);
    assert(out@ =~= old(out)@ + decimal(n as nat));
}

/// Appends `bytes` to `out`.
pub fn push_bytes(out: &mut Vec<u8>, bytes: &[u8])
    ensures
        final(out)@ == old(out)@ + bytes@,
{
    let mut i: usize = 0;
    while i < bytes.len()
        invariant
            i <= bytes.len(),
            out@ == old(out)@ + bytes@.take(i as int),
        decreases bytes.len() - i,
    {
        out.push(bytes[i]);
        assert(bytes@.take(i + 1) =~= bytes@.take(i as int).push(bytes@[i as int]));
        i += 1;
    }
    assert(bytes@.take(i as int) =~= bytes@);
}

impl OutputRow {
    /// The line of this row, given the texts of its smallest and its largest
    /// reading.
    pub fn line(&self, min: &[u8], max: &[u8]) -> (r: Vec<u8>)
        ensures
            r@ == line_of(self.index as nat, min@, max@, self.samples as nat),
    {
        let mut out: Vec<u8> = Vec::new();
        push_decimal(&mut out, self.index);
        out.push(59);
        out.push(109);
        out.push(105);
        out.push(110);
        out.push(59);
        assert(out@ =~= decimal(self.index as nat) + min_label());
        push_bytes(&mut out, min);
        out.push(59);
        out.push(109);
        out.push(97);
        out.push(120);
        out.push(59);
        assert(out@ =~= decimal(self.index as nat) + min_label() + min@ + max_label());
        push_bytes(&mut out, max);
        out.push(59);
        out.push(99);
        out.push(121);
        out.push(99);
        out.push(108);
        out.push(101);
        out.push(115);
        out.push(59);
        assert(out@ =~= decimal(self.index as nat) + min_label() + min@ + max_label() + max@
            + cycles_label());
        push_decimal(&mut out, self.samples);
        out.push(59);
        out.push(10);
        assert(out@ =~= line_of(self.index as nat, min@, max@, self.samples as nat));
        out
    }
}

} // verus!
