use vstd::prelude::*;
use vstd::string::StrSliceExecFns;

verus! {

/// The number of base-`base` digits of `n`; 0 has none.
pub open spec fn digit_count(n: nat, base: nat) -> nat
    decreases n,
    via digit_count_decreases
{
    if n == 0 || base < 2 {
        0
    } else {
        1 + digit_count(n / base, base)
    }
}

#[via_fn]
proof fn digit_count_decreases(n: nat, base: nat) {
    if !(n == 0 || base < 2) {
        assert(n / base < n) by (nonlinear_arith)
            requires
                n > 0,
                base >= 2,
        ;
    }
}

/// The number of base-`base` digits of `num`, where 0 counts as having none.
pub fn digits(num: u64, base: u64) -> (r: u64)
    requires
        base >= 2,
    ensures
        r == digit_count(num as nat, base as nat),
{
    let mut n: u64 = num;
    let mut count: u64 = 0;
    while n != 0
        invariant
            base >= 2,
            count + digit_count(n as nat, base as nat) == digit_count(num as nat, base as nat),
            count + n <= num,
        decreases n,
    {
        assert(n / base < n) by (nonlinear_arith)
            requires
                n > 0,
                base >= 2,
        ;
        n = n / base;
        count = count + 1;
    }
    count
}

/// The largest value of a sequence; 0 for an empty one.
pub open spec fn seq_max(s: Seq<nat>) -> nat
    decreases s.len(),
{
    if s.len() == 0 {
        0
    } else {
        let m = seq_max(s.drop_last());
        if s.last() > m { s.last() } else { m }
    }
}

pub open spec fn text_lengths(fields: Seq<String>) -> Seq<nat> {
    fields.map_values(|f: String| f@.len())
}

/// The column width for a set of texts: the length of the longest one, so
/// that every text fits its column; 0 when there are none.
pub fn max_field_width(fields: &Vec<String>) -> (r: usize)
    ensures
        r == seq_max(text_lengths(fields@)),
{
    let mut hi: usize = 0;
    let mut i: usize = 0;
    while i < fields.len()
        invariant
            i <= fields@.len(),
            hi == seq_max(text_lengths(fields@).take(i as int)),
        decreases fields@.len() - i,
    {
        let len = fields[i].as_str().unicode_len();
        assert(text_lengths(fields@).take(i + 1).drop_last() =~= text_lengths(fields@).take(i as int));
        if len > hi {
            hi = len;
        }
        i = i + 1;
    }
    assert(text_lengths(fields@).take(i as int) =~= text_lengths(fields@));
    hi
}

} // verus!
