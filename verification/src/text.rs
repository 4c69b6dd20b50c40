//! Small verified text helpers: decimal rendering of integers and padding.
use vstd::prelude::*;
use vstd::string::*;

verus! {

/// The character of a decimal digit.
pub open spec fn digit_char(d: nat) -> char {
    if d == 0 { '0' }
    else if d == 1 { '1' }
    else if d == 2 { '2' }
    else if d == 3 { '3' }
    else if d == 4 { '4' }
    else if d == 5 { '5' }
    else if d == 6 { '6' }
    else if d == 7 { '7' }
    else if d == 8 { '8' }
    else { '9' }
}

/// The decimal representation of a natural number, without leading zeros.
pub open spec fn decimal(n: nat) -> Seq<char>
    decreases n,
{
    if n < 10 {
        seq![digit_char(n)]
    } else {
        decimal(n / 10).push(digit_char(n % 10))
    }
}

/// `s` preceded by spaces up to `width` characters (as `{:>width}` renders it).
pub open spec fn pad_left(s: Seq<char>, width: nat) -> Seq<char> {
    if s.len() >= width {
        s
    } else {
        Seq::new((width - s.len()) as nat, |i: int| ' ') + s
    }
}

fn digit_string(d: u64) -> (r: String)
    requires
        d < 10,
    ensures
        r@ == seq![digit_char(d as nat)],
{
    proof {
        reveal_strlit("0");
        reveal_strlit("1");
        reveal_strlit("2");
        reveal_strlit("3");
        reveal_strlit("4");
        reveal_strlit("5");
        reveal_strlit("6");
        reveal_strlit("7");
        reveal_strlit("8");
        reveal_strlit("9");
    }
    let s = if d == 0 {
        "0"
    } else if d == 1 {
        "1"
    } else if d == 2 {
        "2"
    } else if d == 3 {
        "3"
    } else if d == 4 {
        "4"
    } else if d == 5 {
        "5"
    } else if d == 6 {
        "6"
    } else if d == 7 {
        "7"
    } else if d == 8 {
        "8"
    } else {
        "9"
    };
    let r = String::from_str(s);
    assert(r@ =~= seq![digit_char(d as nat)]);
    r
}

/// Renders `n` in decimal.
pub fn u64_to_decimal(n: u64) -> (r: String)
    ensures
        r@ == decimal(n as nat),
    decreases n,
{
    if n < 10 {
        digit_string(n)
    } else {
        let high = u64_to_decimal(n / 10);
        let low = digit_string(n % 10);
        let r = high.concat(low.as_str());
        assert(r@ =~= decimal(n as nat));
        r
    }
}

/// Prepends spaces to `s` until it is at least `width` characters long.
pub fn pad_left_exec(s: String, width: usize) -> (r: String)
    ensures
        r@ == pad_left(s@, width as nat),
{
    let len = s.as_str().unicode_len();
    if len >= width {
        return s;
    }
    let mut pad = String::new();
    let mut i: usize = 0;
    proof {
        reveal_strlit(" ");
    }
    while i < width - len
        invariant
            i <= width - len,
            len == s@.len(),
            len < width,
            pad@ =~= Seq::new(i as nat, |j: int| ' '),
        decreases width - len - i,
    {
        proof {
            reveal_strlit(" ");
        }
        pad.append(" ");
        i = i + 1;
    }
    let r = pad.concat(s.as_str());
    r
}

/// The number that a string of decimal digits stands for.
pub open spec fn digits_value(s: Seq<char>) -> int
    decreases s.len(),
{
    if s.len() == 0 {
        0
    } else {
        digits_value(s.drop_last()) * 10 + (s.last() as int - '0' as int)
    }
}

/// Decimal rendering is faithful: it is made of digits, begins with `0` only
/// for zero itself, and reads back as the number.
pub proof fn lemma_decimal_reads_back(n: nat)
    ensures
        decimal(n).len() >= 1,
        forall|i: int| 0 <= i < decimal(n).len() ==> '0' <= #[trigger] decimal(n)[i] && decimal(n)[i] <= '9',
        decimal(n)[0] == '0' ==> n == 0,
        digits_value(decimal(n)) == n,
    decreases n,
{
    assert(forall|d: nat| d < 10 ==> (#[trigger] digit_char(d)) as int - '0' as int == d && '0' <= digit_char(d)
        && digit_char(d) <= '9');
    if n >= 10 {
        lemma_decimal_reads_back(n / 10);
        let s = decimal(n / 10);
        assert(decimal(n) == s.push(digit_char(n % 10)));
        assert(decimal(n).drop_last() =~= s);
        assert(decimal(n).last() == digit_char(n % 10));
        assert(digit_char((n % 10) as nat) as int - '0' as int == n % 10);
        assert(n / 10 * 10 + n % 10 == n);
        assert(digits_value(decimal(n)) == digits_value(s) * 10 + (n % 10));
        assert forall|i: int| 0 <= i < decimal(n).len() implies '0' <= #[trigger] decimal(n)[i] && decimal(n)[i] <= '9' by {
            if i < s.len() {
                assert(decimal(n)[i] == s[i]);
            }
        }
        assert(decimal(n)[0] == s[0]);
    } else {
        assert(seq![digit_char(n)].drop_last() =~= Seq::<char>::empty());
        assert(digit_char(n) as int - '0' as int == n);
        assert(digits_value(decimal(n)) == digits_value(Seq::<char>::empty()) * 10 + (digit_char(n) as int
            - '0' as int));
    }
}

} // verus!
