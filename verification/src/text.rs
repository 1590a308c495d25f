//! Reading and writing decimal integers.
use vstd::prelude::*;

verus! {

/// Whether `c` is an ASCII decimal digit.
pub open spec fn is_digit(c: char) -> bool {
    '0' <= c && c <= '9'
}

/// The value of the ASCII decimal digit `c`.
pub open spec fn digit_value(c: char) -> int {
    (c as int) - ('0' as int)
}

/// Whether every char of `s` is an ASCII decimal digit.
pub open spec fn all_digits(s: Seq<char>) -> bool {
    forall|i: int| 0 <= i < s.len() ==> is_digit(#[trigger] s[i])
}

/// The number that the decimal digits `s` write (most significant first).
pub open spec fn digits_value(s: Seq<char>) -> int
    decreases s.len(),
{
    if s.len() == 0 {
        0
    } else {
        digits_value(s.drop_last()) * 10 + digit_value(s.last())
    }
}

/// What parsing `s` as an `isize` gives: an optional `+` or `-` followed by
/// at least one ASCII digit and nothing else, whose value fits in `isize`.
pub open spec fn parse_isize_spec(s: Seq<char>) -> Option<int> {
    let signed = s.len() > 0 && (s[0] == '-' || s[0] == '+');
    let negative = s.len() > 0 && s[0] == '-';
    let body = if signed {
        s.skip(1)
    } else {
        s
    };
    if body.len() == 0 || !all_digits(body) {
        None
    } else {
        let v = if negative {
            -digits_value(body)
        } else {
            digits_value(body)
        };
        if isize::MIN <= v <= isize::MAX {
            Some(v)
        } else {
            None
        }
    }
}

/// The char of the decimal digit `d`.
pub open spec fn digit_char(d: int) -> char {
    if d == 0 {
        '0'
    } else if d == 1 {
        '1'
    } else if d == 2 {
        '2'
    } else if d == 3 {
        '3'
    } else if d == 4 {
        '4'
    } else if d == 5 {
        '5'
    } else if d == 6 {
        '6'
    } else if d == 7 {
        '7'
    } else if d == 8 {
        '8'
    } else {
        '9'
    }
}

/// The decimal digits of `n`, most significant first, without leading zeros.
pub open spec fn nat_digits(n: nat) -> Seq<char>
    decreases n,
{
    if n < 10 {
        seq![digit_char(n as int)]
    } else {
        nat_digits(n / 10) + seq![digit_char((n % 10) as int)]
    }
}

/// `n` written in decimal, with a leading `-` when negative.
pub open spec fn decimal(n: int) -> Seq<char> {
    if n < 0 {
        seq!['-'] + nat_digits((-n) as nat)
    } else {
        nat_digits(n as nat)
    }
}

proof fn lemma_digits_value_nonneg(s: Seq<char>)
    requires
        all_digits(s),
    ensures
        digits_value(s) >= 0,
    decreases s.len(),
{
    if s.len() > 0 {
        assert(all_digits(s.drop_last()));
        lemma_digits_value_nonneg(s.drop_last());
        assert(is_digit(s[s.len() - 1]));
    }
}

/// The value of a prefix of digits is at most the value of all of them.
proof fn lemma_digits_value_prefix(s: Seq<char>, k: int)
    requires
        all_digits(s),
        0 <= k <= s.len(),
    ensures
        digits_value(s.take(k)) <= digits_value(s),
    decreases s.len() - k,
{
    if k < s.len() {
        lemma_digits_value_prefix(s, k + 1);
        assert(s.take(k + 1).drop_last() =~= s.take(k));
        assert(all_digits(s.take(k))) by {
            assert forall|i: int| 0 <= i < k implies is_digit(#[trigger] s.take(k)[i]) by {
                assert(s.take(k)[i] == s[i]);
            }
        }
        lemma_digits_value_nonneg(s.take(k));
        assert(is_digit(s[k]));
        assert(s.take(k + 1).last() == s[k]);
        assert(digits_value(s.take(k + 1)) == digits_value(s.take(k)) * 10 + digit_value(s[k]));
        assert(digit_value(s[k]) >= 0);
    } else {
        assert(s.take(k) =~= s);
    }
}

/// Parses `s` as an `isize`, as `str::parse::<isize>` does.
pub fn parse_isize(s: &str) -> (r: Option<isize>)
    ensures
        match parse_isize_spec(s@) {
            Some(v) => r == Some(v as isize),
            None => r is None,
        },
{
    let n = s.unicode_len();
    let mut start: usize = 0;
    let mut negative = false;
    if n > 0 {
        let c = s.get_char(0);
        if c == '-' {
            negative = true;
            start = 1;
        } else if c == '+' {
            start = 1;
        }
    }
    let ghost body = s@.skip(start as int);
    proof {
        assert(s@.skip(0) =~= s@);
        let signed = s@.len() > 0 && (s@[0] == '-' || s@[0] == '+');
        assert(body == (if signed {
            s@.skip(1)
        } else {
            s@
        }));
        assert(negative == (s@.len() > 0 && s@[0] == '-'));
    }
    if start >= n {
        return None;
    }
    let limit: i128 = isize::MAX as i128 + 1;
    let mut acc: i128 = 0;
    let mut i: usize = start;
    while i < n
        invariant
            start <= i <= n,
            n == s@.len(),
            body == s@.skip(start as int),
            body == (if s@.len() > 0 && (s@[0] == '-' || s@[0] == '+') {
                s@.skip(1)
            } else {
                s@
            }),
            negative == (s@.len() > 0 && s@[0] == '-'),
            0 <= acc <= limit,
            limit == isize::MAX + 1,
            all_digits(body.take(i - start)),
            acc == digits_value(body.take(i - start)),
        decreases n - i,
    {
        let c = s.get_char(i);
        assert(body[i - start] == c);
        if c < '0' || c > '9' {
            assert(!is_digit(body[i - start]));
            assert(!all_digits(body));
            return None;
        }
        let d = (c as u32 - '0' as u32) as i128;
        let ghost pre = body.take(i - start);
        assert(body.take(i + 1 - start).drop_last() =~= pre);
        assert(body.take(i + 1 - start).last() == c);
        acc = acc * 10 + d;
        assert(all_digits(body.take(i + 1 - start))) by {
            assert forall|j: int| 0 <= j < i + 1 - start implies is_digit(
                #[trigger] body.take(i + 1 - start)[j],
            ) by {
                if j < i - start {
                    assert(body.take(i + 1 - start)[j] == pre[j]);
                }
            }
        }
        i = i + 1;
        if acc > limit {
            proof {
                if all_digits(body) {
                    lemma_digits_value_prefix(body, i - start);
                }
            }
            return None;
        }
    }
    assert(body.take(n - start) =~= body);
    assert(body.len() > 0);
    if negative {
        Some((-acc) as isize)
    } else if acc == limit {
        None
    } else {
        Some(acc as isize)
    }
}

/// `String::push`: appends the char `c` to the end of `s`.
#[verifier::external_body]
pub(crate) fn push_char(s: &mut String, c: char)
    ensures
        final(s)@ == old(s)@.push(c),
{
    s.push(c);
}

fn digit_to_char(d: u128) -> (c: char)
    requires
        d < 10,
    ensures
        c == digit_char(d as int),
{
    if d == 0 {
        '0'
    } else if d == 1 {
        '1'
    } else if d == 2 {
        '2'
    } else if d == 3 {
        '3'
    } else if d == 4 {
        '4'
    } else if d == 5 {
        '5'
    } else if d == 6 {
        '6'
    } else if d == 7 {
        '7'
    } else if d == 8 {
        '8'
    } else {
        '9'
    }
}

fn push_nat_digits(out: &mut String, m: u128)
    ensures
        final(out)@ == old(out)@ + nat_digits(m as nat),
    decreases m,
{
    if m >= 10 {
        push_nat_digits(out, m / 10);
    }
    push_char(out, digit_to_char(m % 10));
    assert(final(out)@ =~= old(out)@ + nat_digits(m as nat));
}

/// Appends `n` written in decimal to `out`.
pub fn push_decimal(out: &mut String, n: isize)
    ensures
        final(out)@ == old(out)@ + decimal(n as int),
{
    if n < 0 {
        push_char(out, '-');
        let m: u128 = (-(n as i128)) as u128;
        push_nat_digits(out, m);
        assert(final(out)@ =~= old(out)@ + decimal(n as int));
    } else {
        push_nat_digits(out, n as u128);
    }
}

proof fn lemma_nat_digits_value(m: nat)
    ensures
        nat_digits(m).len() > 0,
        all_digits(nat_digits(m)),
        digits_value(nat_digits(m)) == m,
    decreases m,
{
    let d = (m % 10) as int;
    assert(is_digit(digit_char(d)) && digit_value(digit_char(d)) == d);
    if m < 10 {
        assert(nat_digits(m) =~= seq![digit_char(d)]);
        assert(nat_digits(m).drop_last() =~= Seq::<char>::empty());
        assert(digits_value(Seq::<char>::empty()) == 0);
        assert(nat_digits(m).last() == digit_char(d));
        assert(d == m);
        assert(digits_value(nat_digits(m)) == digits_value(nat_digits(m).drop_last()) * 10
            + digit_value(nat_digits(m).last()));
    } else {
        lemma_nat_digits_value(m / 10);
        let s = nat_digits(m);
        assert(s.drop_last() =~= nat_digits(m / 10));
        assert(s.last() == digit_char(d));
        assert((m / 10) as int * 10 + d == m) by (nonlinear_arith)
            requires
                d == (m % 10) as int,
        ;
        assert(digits_value(s) == digits_value(s.drop_last()) * 10 + digit_value(s.last()));
        assert forall|i: int| 0 <= i < s.len() implies is_digit(#[trigger] s[i]) by {
            if i < s.len() - 1 {
                assert(s[i] == nat_digits(m / 10)[i]);
            }
        }
    }
}

/// Reading back what [`decimal`] writes gives the number written: every
/// `isize` survives writing it out and parsing it again.
pub proof fn lemma_decimal_round_trip(n: int)
    requires
        isize::MIN <= n <= isize::MAX,
    ensures
        parse_isize_spec(decimal(n)) == Some(n),
{
    if n < 0 {
        let m = (-n) as nat;
        lemma_nat_digits_value(m);
        let s = decimal(n);
        assert(s[0] == '-');
        assert(s.skip(1) =~= nat_digits(m));
    } else {
        lemma_nat_digits_value(n as nat);
        let s = nat_digits(n as nat);
        assert(is_digit(s[0]));
    }
}

} // verus!
