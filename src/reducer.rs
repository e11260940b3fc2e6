//! The reduction stage of a word-count job: one call per distinct word,
//! with every partial count that the upstream producers emitted for it.
//! Values that do not stand for a count are noise and add nothing.

use vstd::prelude::*;
use vstd::slice::slice_to_vec;

use crate::decimal::{all_digits, digits_value, is_digit, DIGIT_ZERO, decimal_digits, decimal_text, parse_count, parsed_count};

verus! {

/// What one partial value adds to the total: its count, or nothing at all
/// when it does not stand for one.
pub open spec fn contribution(v: Seq<u8>) -> nat {
    match parsed_count(v) {
        Some(n) => n,
        None => 0,
    }
}

/// The sum of what each of `vs` contributes.
pub open spec fn total_of(vs: Seq<Seq<u8>>) -> nat
    decreases vs.len(),
{
    if vs.len() == 0 {
        0
    } else {
        total_of(vs.drop_last()) + contribution(vs.last())
    }
}

/// The bytes of each value, in order.
pub open spec fn value_texts(values: &[&[u8]]) -> Seq<Seq<u8>> {
    values@.map_values(|v: &[u8]| v@)
}

/// The record that the reduction of `key` over `vs` emits: the key as it
/// came, and the decimal text of the total.
pub open spec fn merged_record(key: Seq<u8>, vs: Seq<Seq<u8>>) -> (Seq<u8>, Seq<u8>) {
    (key, decimal_digits(total_of(vs)))
}

/// Sums every partial count among `values`, skipping those that are not the
/// decimal text of a `usize`. The sum of any number of `usize` values
/// fits in a `u128`, so it is exact.
pub fn merge_total(values: &[&[u8]]) -> (r: u128)
    ensures
        r as nat == total_of(value_texts(values)),
{
    let ghost vs = value_texts(values);
    let mut total: u128 = 0;
    let mut i: usize = 0;
    while i < values.len()
        invariant
            i <= values.len(),
            vs == value_texts(values),
            total as nat == total_of(vs.take(i as int)),
            total <= i * usize::MAX,
        decreases values.len() - i,
    {
        assert(vs.take(i + 1).drop_last() =~= vs.take(i as int));
        let parsed = parse_count(values[i]);
        if let Some(n) = parsed {
            assert(total + n <= (i + 1) * usize::MAX) by (nonlinear_arith)
                requires
                    total <= i * usize::MAX,
                    n <= usize::MAX,
            ;
            assert((i + 1) * usize::MAX <= usize::MAX * usize::MAX) by (nonlinear_arith)
                requires
                    i < usize::MAX,
            ;
            total = total + n as u128;
        } else {
            assert(total <= (i + 1) * usize::MAX) by (nonlinear_arith)
                requires
                    total <= i * usize::MAX,
            ;
        }
        i = i + 1;
    }
    assert(vs.take(i as int) =~= vs);
    total
}

/// Merges the partial counts of one word: the record holds `key` unchanged
/// and the decimal text of the sum of the values that are counts. No value
/// is ever an error; with no values at all the total is `0`.
pub fn reduce_record(key: &[u8], values: &[&[u8]]) -> (r: (Vec<u8>, Vec<u8>))
    ensures
        (r.0@, r.1@) == merged_record(key@, value_texts(values)),
        values@.len() == 0 ==> r.1@ == seq![DIGIT_ZERO],
{
    let total = merge_total(values);
    assert(values@.len() == 0 ==> decimal_digits(total as nat) =~= seq![DIGIT_ZERO]);
    (slice_to_vec(key), decimal_text(total))
}

/// The sum of a sequence of naturals.
pub open spec fn sum_of(ns: Seq<nat>) -> nat
    decreases ns.len(),
{
    if ns.len() == 0 {
        0
    } else {
        sum_of(ns.drop_last()) + ns.last()
    }
}

/// The decimal text of a `usize` reads back as that number.
pub proof fn lemma_decimal_reads_back(n: nat)
    requires
        n <= usize::MAX,
    ensures
        parsed_count(decimal_digits(n)) == Some(n),
{
    lemma_decimal_digits(n);
}

/// The decimal text of `n` is a non-empty run of digits worth `n`.
proof fn lemma_decimal_digits(n: nat)
    ensures
        decimal_digits(n).len() > 0,
        all_digits(decimal_digits(n)),
        digits_value(decimal_digits(n)) == n,
    decreases n,
{
    let d = decimal_digits(n);
    assert(digits_value(d) == digits_value(d.drop_last()) * 10 + (d.last() - DIGIT_ZERO) as nat);
    if n < 10 {
        assert(d.drop_last() =~= Seq::<u8>::empty());
        assert(d.last() - DIGIT_ZERO == n);
    } else {
        lemma_decimal_digits(n / 10);
        assert(d.drop_last() =~= decimal_digits(n / 10));
        assert(d.last() - DIGIT_ZERO == n % 10);
        assert(n == (n / 10) * 10 + n % 10);
        assert forall|i: int| 0 <= i < d.len() implies is_digit(#[trigger] d[i]) by {
            if i < d.len() - 1 {
                assert(d[i] == decimal_digits(n / 10)[i]);
            }
        }
    }
}

/// Reducing a word whose partial values are the decimal texts of counts
/// emits the sum of those counts.
pub proof fn lemma_sum_of_counts(ns: Seq<nat>)
    requires
        forall|i: int| 0 <= i < ns.len() ==> ns[i] <= usize::MAX,
    ensures
        total_of(ns.map_values(|n: nat| decimal_digits(n))) == sum_of(ns),
        merged_record(Seq::empty(), ns.map_values(|n: nat| decimal_digits(n))).1
            == decimal_digits(sum_of(ns)),
    decreases ns.len(),
{
    let vs = ns.map_values(|n: nat| decimal_digits(n));
    if ns.len() > 0 {
        lemma_sum_of_counts(ns.drop_last());
        assert(vs.drop_last() =~= ns.drop_last().map_values(|n: nat| decimal_digits(n)));
        lemma_decimal_reads_back(ns.last());
    }
}

/// The total over two runs of values laid end to end is the sum of their
/// totals.
pub proof fn lemma_total_of_concat(a: Seq<Seq<u8>>, b: Seq<Seq<u8>>)
    ensures
        total_of(a + b) == total_of(a) + total_of(b),
    decreases b.len(),
{
    if b.len() == 0 {
        assert(a + b =~= a);
    } else {
        lemma_total_of_concat(a, b.drop_last());
        assert((a + b).drop_last() =~= a + b.drop_last());
    }
}

/// A value that is not the text of a count, put anywhere among the values,
/// leaves the total as it was; by repetition, so do any number of them.
pub proof fn lemma_noise_adds_nothing(vs: Seq<Seq<u8>>, i: int, noise: Seq<u8>)
    requires
        0 <= i <= vs.len(),
        parsed_count(noise) is None,
    ensures
        total_of(vs.insert(i, noise)) == total_of(vs),
        merged_record(Seq::empty(), vs.insert(i, noise)).1 == merged_record(Seq::empty(), vs).1,
{
    let a = vs.take(i);
    let b = vs.skip(i);
    assert(vs =~= a + b);
    assert(vs.insert(i, noise) =~= a.push(noise) + b);
    lemma_total_of_concat(a, b);
    lemma_total_of_concat(a.push(noise), b);
    assert(a.push(noise).drop_last() =~= a);
}

/// The record emitted for a word depends on the key and the values alone:
/// two reductions of the same input emit the same record.
pub proof fn lemma_reduction_is_deterministic(
    k1: Seq<u8>,
    vs1: Seq<Seq<u8>>,
    k2: Seq<u8>,
    vs2: Seq<Seq<u8>>,
)
    requires
        k1 == k2,
        vs1 == vs2,
    ensures
        merged_record(k1, vs1) == merged_record(k2, vs2),
{
}

/// Reducing a word once more over the single value that an earlier
/// reduction emitted gives back the same record, as long as the total is
/// itself a `usize`.
pub proof fn lemma_reduction_is_idempotent(key: Seq<u8>, vs: Seq<Seq<u8>>)
    requires
        total_of(vs) <= usize::MAX,
    ensures
        merged_record(key, seq![merged_record(key, vs).1]) == merged_record(key, vs),
{
    let once = seq![merged_record(key, vs).1];
    lemma_decimal_reads_back(total_of(vs));
    assert(once.drop_last() =~= Seq::<Seq<u8>>::empty());
    assert(once.last() == decimal_digits(total_of(vs)));
    assert(contribution(once.last()) == total_of(vs));
    assert(total_of(once) == total_of(once.drop_last()) + contribution(once.last()));
}

} // verus!
