//! Aggregations over a column of decoded values.
//!
//! Values are fixed-point integers (see `decimal`); every numeric result is
//! exact, as a fraction over the same unit as the values.

use vstd::prelude::*;
use vstd::relations::{sorted_by, total_ordering};
use vstd::seq_lib::lemma_sorted_unique;

use crate::decimal::{fixed_text, push_char, push_fixed};

verus! {

broadcast use vstd::seq_lib::group_to_multiset_ensures, vstd::multiset::group_multiset_axioms;

/// The supported reductions of a group of values.
#[derive(Debug, Clone, Copy, PartialEq, Eq, Structural)]
pub enum Operation {
    Sum,
    Min,
    Max,
    Mean,
    Median,
    Collapse,
}

/// An exact rational number `num / den`, with `den > 0`.
#[derive(Debug, Clone, Copy, PartialEq, Eq, Structural)]
pub struct Fraction {
    pub num: i128,
    pub den: u64,
}

/// The outcome of a reduction: a number, or text for `Collapse`.
#[derive(Debug, PartialEq, Eq)]
pub enum OperationResult {
    Number(Fraction),
    String(String),
}

/// What a reduction yields, as mathematical values.
pub enum Outcome {
    Number { num: int, den: int },
    Text(Seq<char>),
}

impl OperationResult {
    pub open spec fn outcome(&self) -> Outcome {
        match self {
            OperationResult::Number(f) => Outcome::Number { num: f.num as int, den: f.den as int },
            OperationResult::String(s) => Outcome::Text(s@),
        }
    }
}

pub open spec fn outcome_of(r: Option<OperationResult>) -> Option<Outcome> {
    match r {
        Some(x) => Some(x.outcome()),
        None => None,
    }
}

/// A fraction as the pair of its numerator and denominator.
pub open spec fn fraction_pair(r: Option<Fraction>) -> Option<(int, int)> {
    match r {
        Some(f) => Some((f.num as int, f.den as int)),
        None => None,
    }
}

/// The ascending order on values.
pub open spec fn ascending() -> spec_fn(i64, i64) -> bool {
    |a: i64, b: i64| a <= b
}

/// The left fold of `+` over the values, starting at zero.
pub open spec fn sum_spec(s: Seq<i64>) -> int {
    s.fold_left(0int, |acc: int, x: i64| acc + x)
}

/// The least value of a non-empty sequence.
pub open spec fn min_spec(s: Seq<i64>) -> i64
    decreases s.len(),
{
    if s.len() <= 1 {
        s[0]
    } else {
        let m = min_spec(s.drop_last());
        if s.last() < m { s.last() } else { m }
    }
}

/// The greatest value of a non-empty sequence.
pub open spec fn max_spec(s: Seq<i64>) -> i64
    decreases s.len(),
{
    if s.len() <= 1 {
        s[0]
    } else {
        let m = max_spec(s.drop_last());
        if s.last() > m { s.last() } else { m }
    }
}

/// The median: the middle of the sorted values, or the mean of the two middle
/// ones when their count is even; none for no values.
pub open spec fn median_spec(s: Seq<i64>) -> Option<(int, int)> {
    let t = s.sort_by(ascending());
    let mid = s.len() / 2;
    if s.len() == 0 {
        None
    } else if s.len() % 2 == 1 {
        Some((t[mid as int] as int, 1int))
    } else {
        Some((t[mid - 1] + t[mid as int], 2int))
    }
}

proof fn lemma_ascending_total()
    ensures
        total_ordering(ascending()),
{
}

/// The sum of the values.
fn sum_of(data: &[i64]) -> (r: i128)
    ensures
        r == sum_spec(data@),
{
    let mut acc: i128 = 0;
    let mut i: usize = 0;
    while i < data.len()
        invariant
            i <= data@.len(),
            acc == sum_spec(data@.subrange(0, i as int)),
            -(i as int) * 0x8000_0000_0000_0000 <= acc <= (i as int) * 0x7fff_ffff_ffff_ffff,
        decreases data@.len() - i,
    {
        proof {
            let k = i as int;
            assert(k + 1 <= 0x1_0000_0000_0000_0000) by {
                assert(i < usize::MAX);
            }
            assert(-(k + 1) * 0x8000_0000_0000_0000 >= -0x8000_0000_0000_0000_0000_0000_0000_0000)
                by (nonlinear_arith)
                requires
                    k + 1 <= 0x1_0000_0000_0000_0000,
            ;
            assert((k + 1) * 0x7fff_ffff_ffff_ffff <= 0x7fff_ffff_ffff_ffff_ffff_ffff_ffff_ffff)
                by (nonlinear_arith)
                requires
                    k + 1 <= 0x1_0000_0000_0000_0000,
            ;
            assert(data@.subrange(0, k + 1).drop_last() =~= data@.subrange(0, k));
        }
        acc = acc + data[i] as i128;
        i = i + 1;
        proof {
            let k = i as int;
            assert(-(k - 1) * 0x8000_0000_0000_0000 - 0x8000_0000_0000_0000 == -k
                * 0x8000_0000_0000_0000);
            assert((k - 1) * 0x7fff_ffff_ffff_ffff + 0x7fff_ffff_ffff_ffff == k
                * 0x7fff_ffff_ffff_ffff);
        }
    }
    assert(data@.subrange(0, i as int) =~= data@);
    acc
}

/// The least value of a non-empty slice.
fn min_of(data: &[i64]) -> (r: i64)
    requires
        data@.len() > 0,
    ensures
        r == min_spec(data@),
{
    let mut m = data[0];
    let mut i: usize = 1;
    assert(data@.subrange(0, 1).len() == 1);
    while i < data.len()
        invariant
            1 <= i <= data@.len(),
            m == min_spec(data@.subrange(0, i as int)),
        decreases data@.len() - i,
    {
        assert(data@.subrange(0, i + 1).drop_last() =~= data@.subrange(0, i as int));
        if data[i] < m {
            m = data[i];
        }
        i = i + 1;
    }
    assert(data@.subrange(0, i as int) =~= data@);
    m
}

/// The greatest value of a non-empty slice.
fn max_of(data: &[i64]) -> (r: i64)
    requires
        data@.len() > 0,
    ensures
        r == max_spec(data@),
{
    let mut m = data[0];
    let mut i: usize = 1;
    assert(data@.subrange(0, 1).len() == 1);
    while i < data.len()
        invariant
            1 <= i <= data@.len(),
            m == max_spec(data@.subrange(0, i as int)),
        decreases data@.len() - i,
    {
        assert(data@.subrange(0, i + 1).drop_last() =~= data@.subrange(0, i as int));
        if data[i] > m {
            m = data[i];
        }
        i = i + 1;
    }
    assert(data@.subrange(0, i as int) =~= data@);
    m
}

/// A sorted copy of the values; the input is left as it is.
fn sorted_copy(data: &[i64]) -> (r: Vec<i64>)
    ensures
        r@ == data@.sort_by(ascending()),
        r@.len() == data@.len(),
{
    let mut out: Vec<i64> = Vec::new();
    let mut i: usize = 0;
    while i < data.len()
        invariant
            i <= data@.len(),
            sorted_by(out@, ascending()),
            out@.to_multiset() == data@.subrange(0, i as int).to_multiset(),
        decreases data@.len() - i,
    {
        let x = data[i];
        let mut p: usize = 0;
        while p < out.len() && out[p] <= x
            invariant
                p <= out@.len(),
                forall|j: int| 0 <= j < p ==> out@[j] <= x,
            decreases out@.len() - p,
        {
            p = p + 1;
        }
        let ghost before = out@;
        out.insert(p, x);
        proof {
            let after = out@;
            assert(after.remove(p as int) =~= before);
            assert(after[p as int] == x);
            assert(after.to_multiset() =~= before.to_multiset().insert(x));
            assert(data@.subrange(0, i + 1) =~= data@.subrange(0, i as int).push(x));
            assert forall|a: int, b: int| 0 <= a < b < after.len() implies #[trigger] (ascending())(
                after[a],
                after[b],
            ) by {
                assert((ascending())(after[a], after[b]) == (after[a] <= after[b]));
                if b < p {
                    assert((ascending())(before[a], before[b]));
                } else if b == p {
                } else if a < p {
                    assert(after[b] == before[b - 1]);
                    assert((ascending())(before[p as int], before[b - 1]) || b - 1 == p);
                } else if a == p {
                    assert(after[b] == before[b - 1]);
                    assert((ascending())(before[p as int], before[b - 1]) || b - 1 == p);
                } else {
                    assert((ascending())(before[a - 1], before[b - 1]));
                }
            }
        }
        i = i + 1;
    }
    proof {
        assert(data@.subrange(0, i as int) =~= data@);
        data@.lemma_sort_by_ensures(ascending());
        lemma_ascending_total();
        lemma_sorted_unique(out@, data@.sort_by(ascending()), ascending());
        assert(out@.to_multiset().len() == data@.to_multiset().len());
    }
    out
}

/// The median of the values: computed on a sorted private copy, so `numbers`
/// keeps its order. `None` when there are no values.
pub fn median(numbers: &[i64]) -> (r: Option<Fraction>)
    ensures
        fraction_pair(r) == median_spec(numbers@),
{
    if numbers.len() == 0 {
        return None;
    }
    let sorted = sorted_copy(numbers);
    let mid = sorted.len() / 2;
    if sorted.len() % 2 == 0 {
        Some(Fraction { num: sorted[mid - 1] as i128 + sorted[mid] as i128, den: 2 })
    } else {
        Some(Fraction { num: sorted[mid] as i128, den: 1 })
    }
}

/// The canonical texts of the values, in their order, joined by `", "`.
pub open spec fn collapse_text(s: Seq<i64>) -> Seq<char>
    decreases s.len(),
{
    if s.len() == 0 {
        Seq::empty()
    } else if s.len() == 1 {
        fixed_text(s[0] as int)
    } else {
        collapse_text(s.drop_last()) + seq![',', ' '] + fixed_text(s.last() as int)
    }
}

/// What each operation yields on the values.
pub open spec fn compute_spec(operation: Operation, s: Seq<i64>) -> Option<Outcome> {
    match operation {
        Operation::Sum => Some(Outcome::Number { num: sum_spec(s), den: 1 }),
        Operation::Min => if s.len() == 0 {
            None
        } else {
            Some(Outcome::Number { num: min_spec(s) as int, den: 1 })
        },
        Operation::Max => if s.len() == 0 {
            None
        } else {
            Some(Outcome::Number { num: max_spec(s) as int, den: 1 })
        },
        Operation::Mean => if s.len() == 0 {
            None
        } else {
            Some(Outcome::Number { num: sum_spec(s), den: s.len() as int })
        },
        Operation::Median => match median_spec(s) {
            Some(p) => Some(Outcome::Number { num: p.0, den: p.1 }),
            None => None,
        },
        Operation::Collapse => Some(Outcome::Text(collapse_text(s))),
    }
}

/// The values' texts joined by `", "`, in their order, duplicates kept.
fn collapse(data: &[i64]) -> (r: String)
    ensures
        r@ == collapse_text(data@),
{
    let mut out = String::new();
    let mut i: usize = 0;
    while i < data.len()
        invariant
            i <= data@.len(),
            out@ == collapse_text(data@.subrange(0, i as int)),
        decreases data@.len() - i,
    {
        assert(data@.subrange(0, i + 1).drop_last() =~= data@.subrange(0, i as int));
        if i > 0 {
            push_char(&mut out, ',');
            push_char(&mut out, ' ');
        }
        push_fixed(&mut out, data[i]);
        proof {
            if i == 0 {
                assert(out@ =~= fixed_text(data@[0] as int));
            } else {
                assert(out@ =~= collapse_text(data@.subrange(0, i as int)) + seq![',', ' ']
                    + fixed_text(data@[i as int] as int));
            }
        }
        i = i + 1;
    }
    assert(data@.subrange(0, i as int) =~= data@);
    out
}

/// Reduces a group of present values with one operation. Only `Sum` and
/// `Collapse` have a result for no values (zero and the empty text); the others
/// give `None` there.
pub fn float_compute(operation: Operation, data: &[i64]) -> (r: Option<OperationResult>)
    ensures
        outcome_of(r) == compute_spec(operation, data@),
{
    match operation {
        Operation::Sum => Some(OperationResult::Number(Fraction { num: sum_of(data), den: 1 })),
        Operation::Min => {
            if data.len() == 0 {
                None
            } else {
                Some(OperationResult::Number(Fraction { num: min_of(data) as i128, den: 1 }))
            }
        },
        Operation::Max => {
            if data.len() == 0 {
                None
            } else {
                Some(OperationResult::Number(Fraction { num: max_of(data) as i128, den: 1 }))
            }
        },
        Operation::Mean => {
            if data.len() == 0 {
                None
            } else {
                Some(
                    OperationResult::Number(Fraction { num: sum_of(data), den: data.len() as u64 }),
                )
            }
        },
        Operation::Median => match median(data) {
            Some(f) => Some(OperationResult::Number(f)),
            None => None,
        },
        Operation::Collapse => Some(OperationResult::String(collapse(data))),
    }
}

proof fn lemma_sum_concat(a: Seq<i64>, b: Seq<i64>)
    ensures
        sum_spec(a + b) == sum_spec(a) + sum_spec(b),
    decreases b.len(),
{
    if b.len() == 0 {
        assert(a + b =~= a);
    } else {
        lemma_sum_concat(a, b.drop_last());
        assert((a + b).drop_last() =~= a + b.drop_last());
    }
}

proof fn lemma_sum_remove(t: Seq<i64>, i: int)
    requires
        0 <= i < t.len(),
    ensures
        sum_spec(t) == sum_spec(t.remove(i)) + t[i],
{
    let front = t.subrange(0, i);
    let back = t.subrange(i + 1, t.len() as int);
    let one = seq![t[i]];
    assert(one.drop_last() =~= Seq::<i64>::empty());
    assert(sum_spec(one) == sum_spec(one.drop_last()) + one.last());
    assert(sum_spec(one) == t[i]);
    lemma_sum_concat(front, one + back);
    lemma_sum_concat(one, back);
    lemma_sum_concat(front, back);
    assert(t =~= front + (one + back));
    assert(t.remove(i) =~= front + back);
}

/// The sum does not depend on the order of the values: any two sequences
/// holding the same values, each as often, have the same left-fold sum.
pub proof fn lemma_sum_order_independent(s: Seq<i64>, t: Seq<i64>)
    requires
        s.to_multiset() == t.to_multiset(),
    ensures
        sum_spec(s) == sum_spec(t),
    decreases s.len(),
{
    if s.len() == 0 {
        assert(t.to_multiset().len() == 0);
        assert(t =~= Seq::<i64>::empty());
    } else {
        let x = s.last();
        assert(s.to_multiset().count(x) > 0);
        assert(t.contains(x));
        let i = choose|i: int| 0 <= i < t.len() && t[i] == x;
        assert(s.remove(s.len() - 1) =~= s.drop_last());
        assert(s.drop_last().to_multiset() =~= t.remove(i).to_multiset());
        lemma_sum_order_independent(s.drop_last(), t.remove(i));
        lemma_sum_remove(t, i);
    }
}

} // verus!
