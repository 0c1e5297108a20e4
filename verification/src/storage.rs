//! The best score as it is persisted: the decimal text of a `u32`, read back
//! the way `str::parse::<u32>` reads it, with anything unreadable taken as 0.

use vstd::arithmetic::power::pow;
use vstd::prelude::*;

verus! {

/// Whether `c` is an ASCII decimal digit.
pub open spec fn is_digit(c: char) -> bool {
    48 <= (c as int) <= 57
}

/// The value of a decimal digit character.
pub open spec fn digit_value(c: char) -> int {
    (c as int) - 48
}

/// The character that writes the decimal digit `d`.
pub open spec fn digit_char(d: int) -> char {
    if d == 0 {
        '0'
    } else if d == 1 {
        '1'
    } else if d == 2 {
        '2'
    } else if d == 3 {
        '3'
    } else if d == 4 {
        '4'
    } else if d == 5 {
        '5'
    } else if d == 6 {
        '6'
    } else if d == 7 {
        '7'
    } else if d == 8 {
        '8'
    } else {
        '9'
    }
}

/// Whether every character of `ds` is a decimal digit.
pub open spec fn all_digits(ds: Seq<char>) -> bool {
    forall|i: int| 0 <= i < ds.len() ==> #[trigger] is_digit(ds[i])
}

/// The number that a string of decimal digits denotes, most significant first.
pub open spec fn digits_value(ds: Seq<char>) -> int
    decreases ds.len(),
{
    if ds.len() == 0 {
        0
    } else {
        digits_value(ds.drop_last()) * 10 + digit_value(ds.last())
    }
}

/// The shortest decimal writing of `n`: no sign, no leading zero.
pub open spec fn decimal(n: nat) -> Seq<char>
    decreases n,
{
    if n < 10 {
        seq![digit_char(n as int)]
    } else {
        decimal(n / 10).push(digit_char((n % 10) as int))
    }
}

/// The digits of an unsigned number's text: what follows one optional `+`.
pub open spec fn unsigned_digits(s: Seq<char>) -> Seq<char> {
    if s.len() > 0 && s[0] == '+' {
        s.drop_first()
    } else {
        s
    }
}

/// Whether `s` is the text of a `u32`: an optional `+`, then at least one
/// decimal digit and nothing else, of a value that fits in 32 bits.
pub open spec fn parses_as_u32(s: Seq<char>) -> bool {
    let ds = unsigned_digits(s);
    &&& ds.len() > 0
    &&& all_digits(ds)
    &&& digits_value(ds) <= u32::MAX
}

/// The best score that a stored text stands for: its value where it is the
/// text of a `u32`, and 0 where it is not.
pub open spec fn best_from_text(s: Seq<char>) -> u32 {
    if parses_as_u32(s) {
        digits_value(unsigned_digits(s)) as u32
    } else {
        0
    }
}

/// The best score read from storage: 0 where nothing is stored.
pub open spec fn stored_best(stored: Option<Seq<char>>) -> u32 {
    match stored {
        Some(s) => best_from_text(s),
        None => 0,
    }
}

proof fn lemma_digits_value_nonneg(ds: Seq<char>)
    requires
        all_digits(ds),
    ensures
        digits_value(ds) >= 0,
    decreases ds.len(),
{
    if ds.len() > 0 {
        assert(is_digit(ds[ds.len() - 1]));
        lemma_digits_value_nonneg(ds.drop_last());
    }
}

/// A prefix of a digit string never denotes more than the whole string.
proof fn lemma_digits_value_prefix(ds: Seq<char>, k: int)
    requires
        all_digits(ds),
        0 <= k <= ds.len(),
    ensures
        digits_value(ds.take(k)) <= digits_value(ds),
    decreases ds.len(),
{
    if k < ds.len() {
        let init = ds.drop_last();
        assert(init.take(k) =~= ds.take(k));
        assert(is_digit(ds[ds.len() - 1]));
        lemma_digits_value_prefix(init, k);
        lemma_digits_value_nonneg(init);
    } else {
        assert(ds.take(k) =~= ds);
    }
}

proof fn lemma_digit_char(d: int)
    requires
        0 <= d < 10,
    ensures
        is_digit(digit_char(d)),
        digit_value(digit_char(d)) == d,
        digit_char(d) != '+',
{
}

/// The decimal writing of `n` is a nonempty digit string that denotes `n`.
proof fn lemma_decimal(n: nat)
    ensures
        decimal(n).len() > 0,
        all_digits(decimal(n)),
        digits_value(decimal(n)) == n,
        decimal(n)[0] != '+',
    decreases n,
{
    if n < 10 {
        lemma_digit_char(n as int);
        let d = decimal(n);
        assert(d.drop_last() =~= Seq::<char>::empty());
        assert(digits_value(d.drop_last()) == 0);
        assert(digits_value(d) == digit_value(d.last()));
    } else {
        lemma_decimal(n / 10);
        lemma_digit_char((n % 10) as int);
        let d = decimal(n);
        assert(d.drop_last() =~= decimal(n / 10));
        assert(d.last() == digit_char((n % 10) as int));
        assert(digits_value(d) == digits_value(decimal(n / 10)) * 10 + (n % 10));
        assert forall|i: int| 0 <= i < d.len() implies #[trigger] is_digit(d[i]) by {
            if i < d.len() - 1 {
                assert(d[i] == decimal(n / 10)[i]);
            }
        }
    }
}

/// The decimal writing of `n` is its shortest one: a nonempty digit string
/// that denotes `n` and starts with `0` only when it is the single digit of 0.
pub proof fn lemma_decimal_is_shortest(n: nat)
    ensures
        decimal(n).len() > 0,
        all_digits(decimal(n)),
        digits_value(decimal(n)) == n,
        decimal(n)[0] == '0' ==> n == 0 && decimal(n).len() == 1,
        n < 10 <==> decimal(n).len() == 1,
    decreases n,
{
    lemma_decimal(n);
    if n >= 10 {
        lemma_decimal_is_shortest(n / 10);
        assert(decimal(n)[0] == decimal(n / 10)[0]);
    }
}

/// The digit characters are exactly the ten characters of the literal
/// "0123456789", and each one's value is its position there.
pub proof fn lemma_digit_characters(c: char)
    ensures
        is_digit(c) <==> "0123456789"@.contains(c),
        is_digit(c) ==> "0123456789"@[digit_value(c)] == c,
        forall|d: int| 0 <= d < 10 ==> #[trigger] digit_char(d) == "0123456789"@[d],
{
    reveal_strlit("0123456789");
    let t = "0123456789"@;
    assert(t[0] == '0' && t[1] == '1' && t[2] == '2' && t[3] == '3' && t[4] == '4' && t[5] == '5'
        && t[6] == '6' && t[7] == '7' && t[8] == '8' && t[9] == '9');
    if is_digit(c) {
        let v = digit_value(c);
        assert(c == t[v]) by {
            assert(c as int == t[v] as int);
        }
    }
    if t.contains(c) {
        let i = choose|i: int| 0 <= i < t.len() && t[i] == c;
        assert(is_digit(t[i]));
    }
}

/// Digit strings denote numbers positionally, most significant first: a
/// single digit denotes its value, and writing `t` after `s` gives `s`'s value
/// times ten to the length of `t`, plus `t`'s value.
pub proof fn lemma_digits_value_positional(s: Seq<char>, t: Seq<char>, c: char)
    ensures
        digits_value(seq![c]) == digit_value(c),
        digits_value(s + t) == digits_value(s) * pow(10, t.len()) + digits_value(t),
    decreases t.len(),
{
    assert(seq![c].drop_last() =~= Seq::<char>::empty());
    assert(digits_value(Seq::<char>::empty()) == 0);
    assert(seq![c].last() == c);
    assert(digits_value(seq![c]) == digits_value(seq![c].drop_last()) * 10 + digit_value(c));
    reveal(pow);
    if t.len() == 0 {
        assert(s + t =~= s);
    } else {
        let t0 = t.drop_last();
        lemma_digits_value_positional(s, t0, c);
        assert((s + t).drop_last() =~= s + t0);
        assert((s + t).last() == t.last());
        let vs = digits_value(s);
        let p = pow(10, t0.len());
        let v0 = digits_value(t0);
        let d = digit_value(t.last());
        assert(pow(10, t.len()) == 10 * p);
        assert((vs * p + v0) * 10 + d == vs * (10 * p) + (v0 * 10 + d)) by (nonlinear_arith);
    }
}

/// What is saved reads back as the same best score.
pub proof fn lemma_saved_best_reads_back(v: u32)
    ensures
        stored_best(Some(decimal(v as nat))) == v,
{
    lemma_decimal(v as nat);
    assert(unsigned_digits(decimal(v as nat)) == decimal(v as nat));
}

/// The text of `v` as it is stored: its shortest decimal writing.
pub fn save_best(v: u32) -> (text: String)
    ensures
        text@ == decimal(v as nat),
        text@.len() > 0,
        all_digits(text@),
        digits_value(text@) == v,
        text@[0] == '0' ==> v == 0 && text@.len() == 1,
{
    proof {
        lemma_decimal_is_shortest(v as nat);
    }
    let mut text = String::new();
    push_decimal(&mut text, v);
    assert(text@ =~= decimal(v as nat));
    text
}

fn push_decimal(text: &mut String, v: u32)
    ensures
        final(text)@ == old(text)@ + decimal(v as nat),
    decreases v,
{
    if v >= 10 {
        push_decimal(text, v / 10);
    }
    text.append(digit_str(v % 10));
    assert(final(text)@ =~= old(text)@ + decimal(v as nat));
}

fn digit_str(d: u32) -> (s: &'static str)
    requires
        d < 10,
    ensures
        s@ == seq![digit_char(d as int)],
{
    proof {
        reveal_strlit("0");
        reveal_strlit("1");
        reveal_strlit("2");
        reveal_strlit("3");
        reveal_strlit("4");
        reveal_strlit("5");
        reveal_strlit("6");
        reveal_strlit("7");
        reveal_strlit("8");
        reveal_strlit("9");
    }
    let s = if d == 0 {
        "0"
    } else if d == 1 {
        "1"
    } else if d == 2 {
        "2"
    } else if d == 3 {
        "3"
    } else if d == 4 {
        "4"
    } else if d == 5 {
        "5"
    } else if d == 6 {
        "6"
    } else if d == 7 {
        "7"
    } else if d == 8 {
        "8"
    } else {
        "9"
    };
    assert(s@ =~= seq![digit_char(d as int)]);
    s
}

/// Reads `s` as `str::parse::<u32>` does: `None` unless `s` is the text of a
/// `u32`.
fn parse_u32(s: &str) -> (r: Option<u32>)
    ensures
        r == (if parses_as_u32(s@) {
            Some(digits_value(unsigned_digits(s@)) as u32)
        } else {
            None
        }),
{
    let n: usize = s.unicode_len();
    let mut start: usize = 0;
    if n > 0 && s.get_char(0) == '+' {
        start = 1;
    }
    let ghost ds = unsigned_digits(s@);
    assert(ds =~= s@.subrange(start as int, n as int));
    if start >= n {
        return None;
    }
    let mut value: u32 = 0;
    let mut i: usize = start;
    while i < n
        invariant
            start <= i <= n,
            start < n,
            n == s@.len(),
            ds == s@.subrange(start as int, n as int),
            ds == unsigned_digits(s@),
            all_digits(ds.take(i - start)),
            value == digits_value(ds.take(i - start)),
        decreases n - i,
    {
        let c = s.get_char(i);
        let code: u32 = c as u32;
        assert(code as int == c as int);
        let k: usize = i - start;
        assert(ds[k as int] == c);
        if code < 48 || code > 57 {
            assert(!is_digit(ds[k as int]));
            return None;
        }
        assert(ds.take(k + 1).drop_last() =~= ds.take(k as int));
        assert(ds.take(k + 1).last() == c);
        let next: u64 = value as u64 * 10 + (code - 48) as u64;
        assert(next == digits_value(ds.take(k + 1)));
        assert(all_digits(ds.take(k + 1))) by {
            assert forall|j: int| 0 <= j < k + 1 implies #[trigger] is_digit(ds.take(k + 1)[j]) by {
                if j < k {
                    assert(ds.take(k + 1)[j] == ds.take(k as int)[j]);
                }
            }
        }
        if next > 4294967295u64 {
            proof {
                if all_digits(ds) {
                    lemma_digits_value_prefix(ds, k + 1);
                }
            }
            return None;
        }
        value = next as u32;
        i = i + 1;
    }
    assert(ds.take(n - start) =~= ds);
    Some(value)
}

/// The best score read back from what storage holds: the stored value where
/// the text is that of a `u32`, else 0; 0 where nothing is stored.
pub fn load_best(stored: Option<&str>) -> (best: u32)
    ensures
        best == stored_best(
            match stored {
                Some(s) => Some(s@),
                None => None,
            },
        ),
{
    match stored {
        Some(s) => match parse_u32(s) {
            Some(v) => v,
            None => 0,
        },
        None => 0,
    }
}

} // verus!
