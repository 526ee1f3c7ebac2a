//! Decimal text of small numbers, used in error messages.
use vstd::prelude::*;

verus! {

/// The character of a decimal digit.
pub open spec fn digit_char(d: nat) -> char {
    if d == 0 {
        '0'
    } else if d == 1 {
        '1'
    } else if d == 2 {
        '2'
    } else if d == 3 {
        '3'
    } else if d == 4 {
        '4'
    } else if d == 5 {
        '5'
    } else if d == 6 {
        '6'
    } else if d == 7 {
        '7'
    } else if d == 8 {
        '8'
    } else {
        '9'
    }
}

/// The decimal representation of `n`, without leading zeros.
pub open spec fn decimal(n: nat) -> Seq<char>
    decreases n,
{
    if n < 10 {
        seq![digit_char(n)]
    } else {
        decimal(n / 10) + seq![digit_char(n % 10)]
    }
}

fn digit_str(d: u8) -> (s: &'static str)
    requires
        d < 10,
    ensures
        s@ == seq![digit_char(d as nat)],
{
    if d == 0 {
        proof {
            reveal_strlit("0");
        }
        "0"
    } else if d == 1 {
        proof {
            reveal_strlit("1");
        }
        "1"
    } else if d == 2 {
        proof {
            reveal_strlit("2");
        }
        "2"
    } else if d == 3 {
        proof {
            reveal_strlit("3");
        }
        "3"
    } else if d == 4 {
        proof {
            reveal_strlit("4");
        }
        "4"
    } else if d == 5 {
        proof {
            reveal_strlit("5");
        }
        "5"
    } else if d == 6 {
        proof {
            reveal_strlit("6");
        }
        "6"
    } else if d == 7 {
        proof {
            reveal_strlit("7");
        }
        "7"
    } else if d == 8 {
        proof {
            reveal_strlit("8");
        }
        "8"
    } else {
        proof {
            reveal_strlit("9");
        }
        "9"
    }
}

/// The decimal text of a byte.
pub fn decimal_text(b: u8) -> (s: String)
    ensures
        s@ == decimal(b as nat),
{
    if b < 10 {
        String::from_str(digit_str(b))
    } else if b < 100 {
        let mut s = String::from_str(digit_str(b / 10));
        s.append(digit_str(b % 10));
        proof {
            assert(decimal((b / 10) as nat) == seq![digit_char((b / 10) as nat)]);
        }
        s
    } else {
        let mut s = String::from_str(digit_str(b / 100));
        s.append(digit_str((b / 10) % 10));
        s.append(digit_str(b % 10));
        proof {
            let h = (b / 100) as nat;
            let t = (b / 10) as nat;
            assert(h < 10);
            assert(t / 10 == h);
            assert(decimal(h) == seq![digit_char(h)]);
            assert(decimal(t) == decimal(h) + seq![digit_char(t % 10)]);
            assert(decimal(b as nat) == decimal(t) + seq![digit_char((b % 10) as nat)]);
        }
        s
    }
}

} // verus!
