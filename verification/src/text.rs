//! Text built by the library: decimal numbers and right-aligned fields.
use vstd::prelude::*;

verus! {

/// The decimal digit `d`.
pub open spec fn digit_char(d: nat) -> char {
    if d == 0 {
        '0'
    } else if d == 1 {
        '1'
    } else if d == 2 {
        '2'
    } else if d == 3 {
        '3'
    } else if d == 4 {
        '4'
    } else if d == 5 {
        '5'
    } else if d == 6 {
        '6'
    } else if d == 7 {
        '7'
    } else if d == 8 {
        '8'
    } else {
        '9'
    }
}

/// `n` written in decimal, with no leading zero.
pub open spec fn decimal(n: nat) -> Seq<char>
    decreases n,
{
    if n < 10 {
        seq![digit_char(n)]
    } else {
        decimal(n / 10).push(digit_char(n % 10))
    }
}

/// `text` right-aligned in a field of `width` characters: spaces before it
/// when it is shorter, nothing added otherwise.
pub open spec fn pad_left(text: Seq<char>, width: nat) -> Seq<char> {
    if text.len() < width {
        Seq::new((width - text.len()) as nat, |i: int| ' ') + text
    } else {
        text
    }
}

/// Appends the decimal digit `d` to `s`.
fn push_digit(s: &mut String, d: u64)
    requires
        d < 10,
    ensures
        final(s)@ == old(s)@.push(digit_char(d as nat)),
{
    let ghost before = s@;
    let t = if d == 0 {
        "0"
    } else if d == 1 {
        "1"
    } else if d == 2 {
        "2"
    } else if d == 3 {
        "3"
    } else if d == 4 {
        "4"
    } else if d == 5 {
        "5"
    } else if d == 6 {
        "6"
    } else if d == 7 {
        "7"
    } else if d == 8 {
        "8"
    } else {
        "9"
    };
    proof {
        reveal_strlit("0");
        reveal_strlit("1");
        reveal_strlit("2");
        reveal_strlit("3");
        reveal_strlit("4");
        reveal_strlit("5");
        reveal_strlit("6");
        reveal_strlit("7");
        reveal_strlit("8");
        reveal_strlit("9");
    }
    s.append(t);
    assert(s@ =~= before.push(digit_char(d as nat)));
}

/// Appends `n`, written in decimal, to `s`.
pub fn push_decimal(s: &mut String, n: u64)
    ensures
        final(s)@ == old(s)@ + decimal(n as nat),
    decreases n,
{
    let ghost before = s@;
    if n >= 10 {
        push_decimal(s, n / 10);
    }
    push_digit(s, n % 10);
    proof {
        if n >= 10 {
            assert(before + decimal(n as nat / 10).push(digit_char(n as nat % 10)) =~= (before + decimal(
                n as nat / 10,
            )).push(digit_char(n as nat % 10)));
        } else {
            assert(before.push(digit_char(n as nat)) =~= before + seq![digit_char(n as nat)]);
        }
    }
}

/// `text` right-aligned in a field of `width` characters.
pub fn pad_left_to(text: &String, width: usize) -> (r: String)
    ensures
        r@ == pad_left(text@, width as nat),
{
    let n = text.as_str().unicode_len();
    let mut r = String::new();
    if n < width {
        let mut k: usize = 0;
        while k < width - n
            invariant
                n == text@.len(),
                n < width,
                k <= width - n,
                r@ == Seq::new(k as nat, |i: int| ' '),
            decreases width - n - k,
        {
            r.append(" ");
            proof {
                reveal_strlit(" ");
            }
            k += 1;
            assert(r@ =~= Seq::new(k as nat, |i: int| ' '));
        }
    }
    r.append(text.as_str());
    assert(r@ =~= pad_left(text@, width as nat));
    r
}

/// Whether `a` and `b` hold the same characters.
pub(crate) fn str_eq(a: &str, b: &str) -> (r: bool)
    ensures
        r == (a@ == b@),
{
    let x = String::from_str(a);
    let y = String::from_str(b);
    x == y
}

} // verus!
