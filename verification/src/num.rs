//! Decimal rendering and parsing of task numbers.

use vstd::prelude::*;

verus! {

/// The decimal digit character for a value below ten.
pub open spec fn digit_char(d: nat) -> char {
    if d == 0 {
        '0'
    } else if d == 1 {
        '1'
    } else if d == 2 {
        '2'
    } else if d == 3 {
        '3'
    } else if d == 4 {
        '4'
    } else if d == 5 {
        '5'
    } else if d == 6 {
        '6'
    } else if d == 7 {
        '7'
    } else if d == 8 {
        '8'
    } else {
        '9'
    }
}

/// The decimal digits of `n`, most significant first, with no leading zero
/// (a single `'0'` for zero).
pub open spec fn dec_digits(n: nat) -> Seq<char>
    decreases n,
{
    if n < 10 {
        seq![digit_char(n)]
    } else {
        dec_digits(n / 10).push(digit_char(n % 10))
    }
}

/// Whether `c` is a decimal digit character.
pub open spec fn is_digit(c: char) -> bool {
    48 <= c as u32 && c as u32 <= 57
}

/// The value of a digit character.
pub open spec fn digit_val(c: char) -> nat {
    (c as u32 - 48) as nat
}

/// The value of a sequence of digit characters, most significant first.
pub open spec fn val_of(d: Seq<char>) -> nat
    decreases d.len(),
{
    if d.len() == 0 {
        0
    } else {
        val_of(d.drop_last()) * 10 + digit_val(d.last())
    }
}

/// The first position at or after `i` that holds no digit (or the end).
pub open spec fn digits_end(s: Seq<char>, i: int) -> int
    decreases s.len() - i
        when 0 <= i <= s.len()
{
    if i < s.len() && is_digit(s[i]) {
        digits_end(s, i + 1)
    } else {
        i
    }
}

/// The number read at position `i`: the longest run of digits, rejected when
/// it is empty or its value exceeds `u32::MAX`.
pub open spec fn spec_parse_u32_at(s: Seq<char>, i: int) -> Option<(u32, int)> {
    let j = digits_end(s, i);
    if j == i {
        None
    } else if val_of(s.subrange(i, j)) <= u32::MAX {
        Some((val_of(s.subrange(i, j)) as u32, j))
    } else {
        None
    }
}

/// The decimal rendering of `n` is nonempty, holds digits only, and reads
/// back as `n`.
pub proof fn lemma_dec_digits(n: nat)
    ensures
        dec_digits(n).len() >= 1,
        forall|k: int| 0 <= k < dec_digits(n).len() ==> is_digit(#[trigger] dec_digits(n)[k]),
        val_of(dec_digits(n)) == n,
    decreases n,
{
    if n < 10 {
        let d = seq![digit_char(n)];
        assert(dec_digits(n) =~= d);
        assert(d.len() == 1);
        assert(d.last() == digit_char(n));
        assert(d.drop_last() =~= Seq::<char>::empty());
        assert(val_of(Seq::<char>::empty()) == 0);
        assert(val_of(d) == digit_val(digit_char(n)));
        assert(digit_val(digit_char(n)) == n);
    } else {
        lemma_dec_digits(n / 10);
        vstd::arithmetic::div_mod::lemma_fundamental_div_mod(n as int, 10);
        let p = dec_digits(n / 10);
        let c = digit_char(n % 10);
        assert(p.push(c).drop_last() =~= p);
        assert(p.push(c).last() == c);
        assert(val_of(dec_digits(n)) == val_of(p) * 10 + digit_val(c));
        assert(digit_val(c) == n % 10);
        assert(forall|k: int|
            0 <= k < dec_digits(n).len() ==> is_digit(#[trigger] dec_digits(n)[k])) by {
            assert(forall|k: int| 0 <= k < p.len() ==> is_digit(#[trigger] p[k]));
            assert(forall|k: int| 0 <= k < p.push(c).len() ==> is_digit(#[trigger] p.push(c)[k]));
        }
    }
}

/// The value of a prefix of a digit run never exceeds the run's value.
pub proof fn lemma_val_of_prefix(d: Seq<char>, m: int)
    requires
        0 <= m <= d.len(),
    ensures
        val_of(d.subrange(0, m)) <= val_of(d),
    decreases d.len() - m,
{
    if m == d.len() {
        assert(d.subrange(0, m) =~= d);
    } else {
        lemma_val_of_prefix(d, m + 1);
        assert(d.subrange(0, m + 1).drop_last() =~= d.subrange(0, m));
        assert(val_of(d.subrange(0, m + 1)) == val_of(d.subrange(0, m)) * 10 + digit_val(
            d.subrange(0, m + 1).last(),
        ));
    }
}

/// `digits_end` stays between its start and the end of the input.
pub proof fn lemma_digits_end_bounds(s: Seq<char>, i: int)
    requires
        0 <= i <= s.len(),
    ensures
        i <= digits_end(s, i) <= s.len(),
    decreases s.len() - i,
{
    if i < s.len() && is_digit(s[i]) {
        lemma_digits_end_bounds(s, i + 1);
    }
}

/// A run of digits from `i` to `j`, with `j` past the run, pins `digits_end`.
pub proof fn lemma_digits_end_range(s: Seq<char>, i: int, j: int)
    requires
        0 <= i <= j <= s.len(),
        forall|k: int| i <= k < j ==> is_digit(#[trigger] s[k]),
        j == s.len() || !is_digit(s[j]),
    ensures
        digits_end(s, i) == j,
    decreases j - i,
{
    if i < j {
        lemma_digits_end_range(s, i + 1, j);
    }
}

/// Reading a number at the start of its own decimal rendering yields the
/// number back, when what follows the rendering is no digit.
pub proof fn lemma_parse_u32_dec(s: Seq<char>, i: int, n: nat)
    requires
        n <= u32::MAX,
        0 <= i,
        i + dec_digits(n).len() <= s.len(),
        s.subrange(i, i + dec_digits(n).len() as int) == dec_digits(n),
        i + dec_digits(n).len() == s.len() || !is_digit(s[i + dec_digits(n).len()]),
    ensures
        spec_parse_u32_at(s, i) == Some((n as u32, i + dec_digits(n).len() as int)),
{
    lemma_dec_digits(n);
    let l = dec_digits(n).len() as int;
    assert(forall|k: int| i <= k < i + l ==> is_digit(#[trigger] s[k])) by {
        assert(forall|k: int|
            i <= k < i + l ==> #[trigger] s[k] == s.subrange(i, i + l)[k - i]);
    }
    lemma_digits_end_range(s, i, i + l);
}

/// Whether `c` is a decimal digit character.
pub fn is_digit_exec(c: char) -> (b: bool)
    ensures
        b == is_digit(c),
{
    let u = c as u32;
    48 <= u && u <= 57
}

/// The decimal digit character for a value below ten.
pub fn digit_char_of(d: u32) -> (c: char)
    requires
        d < 10,
    ensures
        c == digit_char(d as nat),
{
    if d == 0 {
        '0'
    } else if d == 1 {
        '1'
    } else if d == 2 {
        '2'
    } else if d == 3 {
        '3'
    } else if d == 4 {
        '4'
    } else if d == 5 {
        '5'
    } else if d == 6 {
        '6'
    } else if d == 7 {
        '7'
    } else if d == 8 {
        '8'
    } else {
        '9'
    }
}

/// Appends the decimal rendering of `n`.
pub fn push_dec_digits(n: u32, out: &mut Vec<char>)
    ensures
        final(out)@ =~= old(out)@ + dec_digits(n as nat),
    decreases n,
{
    if n >= 10 {
        push_dec_digits(n / 10, out);
    }
    let c = digit_char_of(n % 10);
    out.push(c);
    proof {
        if n < 10 {
            assert(digit_char(n as nat % 10) == digit_char(n as nat));
            assert(out@ =~= old(out)@ + dec_digits(n as nat));
        } else {
            assert((n / 10) as nat == (n as nat) / 10);
            assert((n % 10) as nat == (n as nat) % 10);
            assert(dec_digits(n as nat) == dec_digits((n as nat) / 10).push(
                digit_char((n as nat) % 10),
            ));
            assert(out@ =~= old(out)@ + dec_digits(n as nat));
        }
    }
}

/// Reads the number at position `i`, as `spec_parse_u32_at` describes.
pub fn parse_u32_at(s: &Vec<char>, i: usize) -> (r: Option<(u32, usize)>)
    requires
        i <= s@.len(),
    ensures
        ({
            let sp = spec_parse_u32_at(s@, i as int);
            match sp {
                None => r is None,
                Some(p) => r == Some((p.0, p.1 as usize)),
            }
        }),
{
    let n = s.len();
    let mut j = i;
    while j < n && is_digit_exec(s[j])
        invariant
            i <= j <= n,
            n == s@.len(),
            forall|k: int| i <= k < j ==> is_digit(#[trigger] s@[k]),
        decreases n - j,
    {
        j += 1;
    }
    proof {
        lemma_digits_end_range(s@, i as int, j as int);
    }
    if j == i {
        return None;
    }
    let mut acc: u64 = 0;
    let mut k = i;
    while k < j
        invariant
            i <= k <= j <= n,
            n == s@.len(),
            i < j,
            digits_end(s@, i as int) == j as int,
            forall|m: int| i <= m < j ==> is_digit(#[trigger] s@[m]),
            acc == val_of(s@.subrange(i as int, k as int)),
            acc <= u32::MAX,
        decreases j - k,
    {
        proof {
            assert(is_digit(s@[k as int]));
            assert(s@.subrange(i as int, k + 1).drop_last() =~= s@.subrange(i as int, k as int));
            assert(s@.subrange(i as int, k + 1).last() == s@[k as int]);
        }
        let u = (s[k] as u32) as u64;
        let d = u - 48;
        let next = acc * 10 + d;
        if next > 0xffff_ffffu64 {
            proof {
                let run = s@.subrange(i as int, j as int);
                assert(run.subrange(0, k + 1 - i) =~= s@.subrange(i as int, k + 1));
                lemma_val_of_prefix(run, k + 1 - i);
            }
            return None;
        }
        acc = next;
        k += 1;
    }
    Some((acc as u32, j))
}

} // verus!
