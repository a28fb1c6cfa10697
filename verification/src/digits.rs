//! The largest number that a handful of decimal digits can write.

use vstd::prelude::*;

verus! {

/// Whether `c` is one of the characters `0` to `9`.
pub open spec fn is_digit_char(c: char) -> bool {
    '0' <= c <= '9'
}

/// Whether every character of `s` is a decimal digit.
pub open spec fn all_digit_chars(s: Seq<char>) -> bool {
    forall|i: int| 0 <= i < s.len() ==> is_digit_char(#[trigger] s[i])
}

/// The digit that the character `c` writes.
pub open spec fn digit_of(c: char) -> nat {
    (c as nat - 48) as nat
}

/// The number that the row of digits `row` writes, each from 0 to 9, the
/// most significant first.
pub open spec fn decimal_value(row: Seq<nat>) -> nat
    decreases row.len(),
{
    if row.len() == 0 {
        0
    } else {
        decimal_value(row.drop_last()) * 10 + row.last()
    }
}

/// How often the digit `d` is written in `s`.
pub open spec fn occurrences(s: Seq<char>, d: nat) -> nat
    decreases s.len(),
{
    if s.len() == 0 {
        0
    } else {
        occurrences(s.drop_last(), d) + if digit_of(s.last()) == d {
            1nat
        } else {
            0nat
        }
    }
}

/// The digit `d`, `times` times in a row.
pub open spec fn repeated(d: nat, times: nat) -> Seq<nat> {
    Seq::new(times, |i: int| d)
}

/// The digits of `s` that are `top` at most, the largest first.
pub open spec fn descending_from(s: Seq<char>, top: nat) -> Seq<nat>
    decreases top,
{
    if top == 0 {
        repeated(0, occurrences(s, 0))
    } else {
        repeated(top, occurrences(s, top)) + descending_from(s, (top - 1) as nat)
    }
}

/// The digits of `s` in the order that writes the largest number: the
/// largest digit first.
pub open spec fn largest_arrangement(s: Seq<char>) -> Seq<nat> {
    descending_from(s, 9)
}

/// A number does not shrink when digits are written behind it.
pub proof fn lemma_decimal_value_grows(front: Seq<nat>, back: Seq<nat>)
    ensures
        decimal_value(front) <= decimal_value(front + back),
    decreases back.len(),
{
    if back.len() == 0 {
        assert(front + back =~= front);
    } else {
        lemma_decimal_value_grows(front, back.drop_last());
        assert((front + back).drop_last() =~= front + back.drop_last());
    }
}

/// Whether every entry of `row` is a digit: 9 at most.
pub open spec fn is_digit_row(row: Seq<nat>) -> bool {
    forall|i: int| 0 <= i < row.len() ==> #[trigger] row[i] <= 9
}

/// How often the digit `d` stands in `row`.
pub open spec fn row_count(row: Seq<nat>, d: nat) -> nat
    decreases row.len(),
{
    if row.len() == 0 {
        0
    } else {
        row_count(row.drop_last(), d) + if row.last() == d {
            1nat
        } else {
            0nat
        }
    }
}

/// Whether `row` writes the digits of `s` in some order: as many digits as
/// `s` has, and each digit as often as `s` has it.
pub open spec fn is_arrangement_of(row: Seq<nat>, s: Seq<char>) -> bool {
    &&& row.len() == s.len()
    &&& forall|d: nat| #[trigger] row_count(row, d) == occurrences(s, d)
}

/// Whether no digit of `row` is followed by a larger one.
pub open spec fn is_descending(row: Seq<nat>) -> bool {
    forall|i: int, j: int| 0 <= i <= j < row.len() ==> row[i] >= row[j]
}

/// Ten to the power of `n`.
pub open spec fn pow10(n: nat) -> nat
    decreases n,
{
    if n == 0 {
        1
    } else {
        10 * pow10((n - 1) as nat)
    }
}

proof fn lemma_count_concat(a: Seq<nat>, b: Seq<nat>, d: nat)
    ensures
        row_count(a + b, d) == row_count(a, d) + row_count(b, d),
    decreases b.len(),
{
    if b.len() == 0 {
        assert(a + b =~= a);
    } else {
        assert((a + b).drop_last() =~= a + b.drop_last());
        lemma_count_concat(a, b.drop_last(), d);
    }
}

proof fn lemma_count_drop_first(row: Seq<nat>, d: nat)
    requires
        row.len() > 0,
    ensures
        row_count(row, d) == row_count(row.drop_first(), d) + if row[0] == d {
            1nat
        } else {
            0nat
        },
{
    let head = seq![row[0]];
    assert(head + row.drop_first() =~= row);
    lemma_count_concat(head, row.drop_first(), d);
    assert(head.drop_last() =~= Seq::<nat>::empty());
    assert(row_count(head.drop_last(), d) == 0);
}

proof fn lemma_counted_digit_stands(row: Seq<nat>, d: nat) -> (at: int)
    requires
        row_count(row, d) > 0,
    ensures
        0 <= at < row.len(),
        row[at] == d,
    decreases row.len(),
{
    if row.last() == d {
        row.len() - 1
    } else {
        lemma_counted_digit_stands(row.drop_last(), d)
    }
}

proof fn lemma_standing_digit_counts(row: Seq<nat>, at: int)
    requires
        0 <= at < row.len(),
    ensures
        row_count(row, row[at]) > 0,
    decreases row.len(),
{
    if at < row.len() - 1 {
        lemma_standing_digit_counts(row.drop_last(), at);
    }
}

proof fn lemma_count_of_repeated(d: nat, times: nat, e: nat)
    ensures
        row_count(repeated(d, times), e) == if e == d {
            times
        } else {
            0
        },
    decreases times,
{
    if times > 0 {
        assert(repeated(d, times).drop_last() =~= repeated(d, (times - 1) as nat));
        lemma_count_of_repeated(d, (times - 1) as nat, e);
    }
}

proof fn lemma_value_front(row: Seq<nat>)
    requires
        row.len() > 0,
    ensures
        decimal_value(row) == row[0] * pow10((row.len() - 1) as nat) + decimal_value(
            row.drop_first(),
        ),
    decreases row.len(),
{
    let rest = row.drop_first();
    if row.len() == 1 {
        assert(row.drop_last() =~= Seq::<nat>::empty());
        assert(rest =~= Seq::<nat>::empty());
        assert(decimal_value(row.drop_last()) == 0);
        assert(decimal_value(rest) == 0);
        assert(pow10(0) == 1);
    } else {
        let front = row.drop_last();
        lemma_value_front(front);
        assert(front.drop_first() =~= rest.drop_last());
        assert(rest.last() == row.last());
        assert(front[0] == row[0]);
        let high = pow10((row.len() - 2) as nat);
        assert(pow10((row.len() - 1) as nat) == 10 * high);
        assert(row[0] * (10 * high) == (row[0] * high) * 10) by (nonlinear_arith);
        assert(decimal_value(rest) == decimal_value(rest.drop_last()) * 10 + rest.last());
    }
}

proof fn lemma_value_below(row: Seq<nat>)
    requires
        is_digit_row(row),
    ensures
        decimal_value(row) < pow10(row.len()),
    decreases row.len(),
{
    if row.len() > 0 {
        let front = row.drop_last();
        assert(is_digit_row(front)) by {
            assert forall|i: int| 0 <= i < front.len() implies #[trigger] front[i] <= 9 by {
                assert(front[i] == row[i]);
            }
        }
        lemma_value_below(front);
        assert(row.last() <= 9);
    }
}

/// Among the rows that hold the same digits, the descending one writes the
/// largest number.
proof fn lemma_descending_is_largest(row: Seq<nat>, top: Seq<nat>)
    requires
        row.len() == top.len(),
        is_digit_row(row),
        is_digit_row(top),
        is_descending(top),
        forall|d: nat| #[trigger] row_count(row, d) == row_count(top, d),
    ensures
        decimal_value(row) <= decimal_value(top),
    decreases row.len(),
{
    if row.len() > 0 {
        let high = pow10((row.len() - 1) as nat);
        let row_rest = row.drop_first();
        let top_rest = top.drop_first();
        lemma_value_front(row);
        lemma_value_front(top);
        // The first digit of `row` stands somewhere in `top`, behind a digit
        // that is no smaller.
        lemma_standing_digit_counts(row, 0);
        assert(row_count(top, row[0]) > 0);
        let at = lemma_counted_digit_stands(top, row[0]);
        assert(top[0] >= top[at]);
        assert(is_digit_row(row_rest)) by {
            assert forall|i: int| 0 <= i < row_rest.len() implies #[trigger] row_rest[i] <= 9 by {
                assert(row_rest[i] == row[i + 1]);
            }
        }
        if row[0] < top[0] {
            lemma_value_below(row_rest);
            assert((row[0] + 1) * high <= top[0] * high) by (nonlinear_arith)
                requires
                    row[0] + 1 <= top[0],
                    high >= 0,
            ;
            assert((row[0] + 1) * high == row[0] * high + high) by (nonlinear_arith);
        } else {
            assert(is_digit_row(top_rest)) by {
                assert forall|i: int| 0 <= i < top_rest.len() implies #[trigger] top_rest[i]
                    <= 9 by {
                    assert(top_rest[i] == top[i + 1]);
                }
            }
            assert(is_descending(top_rest)) by {
                assert forall|i: int, j: int| 0 <= i <= j < top_rest.len() implies top_rest[i]
                    >= top_rest[j] by {
                    assert(top_rest[i] == top[i + 1]);
                    assert(top_rest[j] == top[j + 1]);
                }
            }
            assert forall|d: nat| #[trigger] row_count(row_rest, d) == row_count(top_rest, d) by {
                lemma_count_drop_first(row, d);
                lemma_count_drop_first(top, d);
                assert(row_count(row, d) == row_count(top, d));
            }
            lemma_descending_is_largest(row_rest, top_rest);
        }
    }
}

/// The number of digits of `s` that are `top` at most.
spec fn digits_up_to(s: Seq<char>, top: nat) -> nat
    decreases top,
{
    if top == 0 {
        occurrences(s, 0)
    } else {
        occurrences(s, top) + digits_up_to(s, (top - 1) as nat)
    }
}

proof fn lemma_digits_up_to_push(s: Seq<char>, c: char, top: nat)
    ensures
        digits_up_to(s.push(c), top) == digits_up_to(s, top) + if digit_of(c) <= top {
            1nat
        } else {
            0nat
        },
    decreases top,
{
    assert(s.push(c).drop_last() =~= s);
    if top > 0 {
        lemma_digits_up_to_push(s, c, (top - 1) as nat);
    }
}

proof fn lemma_every_digit_is_counted(s: Seq<char>)
    requires
        all_digit_chars(s),
    ensures
        digits_up_to(s, 9) == s.len(),
    decreases s.len(),
{
    if s.len() == 0 {
        reveal_with_fuel(digits_up_to, 10);
    } else {
        let front = s.drop_last();
        assert(all_digit_chars(front)) by {
            assert forall|i: int| 0 <= i < front.len() implies is_digit_char(
                #[trigger] front[i],
            ) by {
                assert(front[i] == s[i]);
            }
        }
        lemma_every_digit_is_counted(front);
        assert(front.push(s.last()) =~= s);
        lemma_digits_up_to_push(front, s.last(), 9);
        assert(is_digit_char(s[s.len() - 1]));
    }
}

proof fn lemma_descending_from(s: Seq<char>, top: nat)
    ensures
        descending_from(s, top).len() == digits_up_to(s, top),
        is_descending(descending_from(s, top)),
        forall|i: int|
            0 <= i < descending_from(s, top).len() ==> #[trigger] descending_from(s, top)[i]
                <= top,
        forall|d: nat| #[trigger]
            row_count(descending_from(s, top), d) == if d <= top {
                occurrences(s, d)
            } else {
                0
            },
    decreases top,
{
    let run = repeated(top, occurrences(s, top));
    assert forall|d: nat| #[trigger] row_count(run, d) == if d == top {
        occurrences(s, top)
    } else {
        0
    } by {
        lemma_count_of_repeated(top, occurrences(s, top), d);
    }
    if top > 0 {
        let rest = descending_from(s, (top - 1) as nat);
        lemma_descending_from(s, (top - 1) as nat);
        let whole = run + rest;
        assert forall|d: nat| #[trigger] row_count(whole, d) == if d <= top {
            occurrences(s, d)
        } else {
            0
        } by {
            lemma_count_concat(run, rest, d);
            assert(row_count(rest, d) == if d <= top - 1 {
                occurrences(s, d)
            } else {
                0
            });
        }
        assert forall|i: int, j: int| 0 <= i <= j < whole.len() implies whole[i] >= whole[j] by {
            if j >= run.len() {
                assert(whole[j] == rest[j - run.len()]);
                if i >= run.len() {
                    assert(whole[i] == rest[i - run.len()]);
                }
            }
        }
    }
}

/// The arrangement with the largest digit first holds the digits of `s` and
/// writes the largest number that they can write: no other arrangement of
/// them writes a larger one.
pub proof fn lemma_largest_arrangement(s: Seq<char>, row: Seq<nat>)
    requires
        all_digit_chars(s),
        is_arrangement_of(row, s),
    ensures
        is_arrangement_of(largest_arrangement(s), s),
        is_descending(largest_arrangement(s)),
        decimal_value(row) <= decimal_value(largest_arrangement(s)),
{
    let top = largest_arrangement(s);
    lemma_descending_from(s, 9);
    lemma_every_digit_is_counted(s);
    assert forall|d: nat| #[trigger] row_count(top, d) == occurrences(s, d) by {
        if d > 9 {
            if occurrences(s, d) > 0 {
                lemma_no_such_digit(s, d);
            }
        }
    }
    assert(is_digit_row(row)) by {
        assert forall|i: int| 0 <= i < row.len() implies #[trigger] row[i] <= 9 by {
            lemma_standing_digit_counts(row, i);
            if row[i] > 9 {
                assert(row_count(row, row[i]) == occurrences(s, row[i]));
                lemma_no_such_digit(s, row[i]);
            }
        }
    }
    assert forall|d: nat| #[trigger] row_count(row, d) == row_count(top, d) by {
        assert(row_count(row, d) == occurrences(s, d));
    }
    lemma_descending_is_largest(row, top);
}

proof fn lemma_no_such_digit(s: Seq<char>, d: nat)
    requires
        all_digit_chars(s),
        d > 9,
    ensures
        occurrences(s, d) == 0,
    decreases s.len(),
{
    if s.len() > 0 {
        let front = s.drop_last();
        assert(all_digit_chars(front)) by {
            assert forall|i: int| 0 <= i < front.len() implies is_digit_char(
                #[trigger] front[i],
            ) by {
                assert(front[i] == s[i]);
            }
        }
        lemma_no_such_digit(front, d);
        assert(is_digit_char(s[s.len() - 1]));
    }
}

/// Returns the largest number that the digits of `digits` can write.
pub fn biggest_number(digits: Vec<char>) -> (result: u32)
    requires
        all_digit_chars(digits@),
        decimal_value(largest_arrangement(digits@)) <= u32::MAX,
    ensures
        result == decimal_value(largest_arrangement(digits@)),
{
    let ghost s = digits@;
    let mut counts: Vec<usize> = Vec::new();
    counts.resize(10, 0usize);
    let mut n: usize = 0;
    while n < digits.len()
        invariant
            n <= digits@.len(),
            s == digits@,
            all_digit_chars(s),
            counts@.len() == 10,
            forall|d: int| 0 <= d < 10 ==> #[trigger] counts@[d] == occurrences(s.take(n as int), d as nat),
            forall|d: int| 0 <= d < 10 ==> #[trigger] counts@[d] <= n,
        decreases digits@.len() - n,
    {
        let dig: char = digits[n];
        let ghost seen = s.take(n as int);
        let ghost next = s.take(n + 1);
        proof {
            assert(is_digit_char(s[n as int]));
            assert(next.drop_last() =~= seen);
            assert(next.last() == dig);
        }
        let slot: usize = (dig as u8 - 48) as usize;
        let old_count: usize = counts[slot];
        counts.set(slot, old_count + 1);
        n += 1;
    }
    proof {
        assert(s.take(n as int) =~= s);
    }
    let ghost whole = largest_arrangement(s);
    let ghost mut written: Seq<nat> = Seq::empty();
    let mut result: u32 = 0;
    let mut j: usize = 10;
    proof {
        assert(written + descending_from(s, 9) =~= whole);
    }
    while j > 0
        invariant
            j <= 10,
            counts@.len() == 10,
            forall|d: int| 0 <= d < 10 ==> #[trigger] counts@[d] == occurrences(s, d as nat),
            whole == largest_arrangement(s),
            decimal_value(whole) <= u32::MAX,
            result == decimal_value(written),
            j > 0 ==> written + descending_from(s, (j - 1) as nat) == whole,
            j == 0 ==> written == whole,
        decreases j,
    {
        j -= 1;
        let mut k: usize = counts[j];
        let ghost before = written;
        let ghost total = occurrences(s, j as nat);
        let ghost rest: Seq<nat> = if j == 0 {
            Seq::empty()
        } else {
            descending_from(s, (j - 1) as nat)
        };
        proof {
            assert(repeated(j as nat, 0) =~= Seq::<nat>::empty());
            assert(before + repeated(j as nat, 0) =~= before);
            if j == 0 {
                assert(repeated(0, total) + rest =~= descending_from(s, 0));
            }
            assert(before + (repeated(j as nat, total) + rest) =~= whole);
        }
        while k > 0
            invariant
                j < 10,
                k <= total,
                written == before + repeated(j as nat, (total - k) as nat),
                before + (repeated(j as nat, total) + rest) == whole,
                decimal_value(whole) <= u32::MAX,
                result == decimal_value(written),
            decreases k,
        {
            let ghost longer = written.push(j as nat);
            proof {
                assert(longer.drop_last() =~= written);
                assert(longer =~= before + repeated(j as nat, (total - k + 1) as nat));
                let tail = repeated(j as nat, (k - 1) as nat) + rest;
                assert(longer + tail =~= whole);
                lemma_decimal_value_grows(longer, tail);
            }
            k -= 1;
            result = result * 10 + j as u32;
            proof {
                written = longer;
            }
        }
        proof {
            assert(written + rest =~= whole);
            if j == 0 {
                assert(written + rest =~= written);
            }
        }
    }
    result
}

} // verus!
