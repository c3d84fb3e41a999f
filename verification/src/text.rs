//! Decimal and hexadecimal text for messages and identifiers.

use vstd::prelude::*;
use vstd::string::StringExecFns;

verus! {

/// The digit `d` in base sixteen, with lowercase letters.
pub open spec fn digit_char(d: int) -> char {
    if d == 0 {
        '0'
    } else if d == 1 {
        '1'
    } else if d == 2 {
        '2'
    } else if d == 3 {
        '3'
    } else if d == 4 {
        '4'
    } else if d == 5 {
        '5'
    } else if d == 6 {
        '6'
    } else if d == 7 {
        '7'
    } else if d == 8 {
        '8'
    } else if d == 9 {
        '9'
    } else if d == 10 {
        'a'
    } else if d == 11 {
        'b'
    } else if d == 12 {
        'c'
    } else if d == 13 {
        'd'
    } else if d == 14 {
        'e'
    } else {
        'f'
    }
}

/// The decimal digits of `n`, most significant first.
pub open spec fn decimal(n: nat) -> Seq<char>
    decreases n,
{
    if n < 10 {
        seq![digit_char(n as int)]
    } else {
        decimal(n / 10).push(digit_char((n % 10) as int))
    }
}

/// The last `width` hexadecimal digits of `n`, most significant first.
pub open spec fn hex_fixed(n: nat, width: nat) -> Seq<char>
    decreases width,
{
    if width == 0 {
        Seq::empty()
    } else {
        hex_fixed(n / 16, (width - 1) as nat).push(digit_char((n % 16) as int))
    }
}

/// `count` zero characters.
pub open spec fn zeros(count: nat) -> Seq<char>
    decreases count,
{
    if count == 0 {
        Seq::empty()
    } else {
        zeros((count - 1) as nat).push('0')
    }
}

/// The decimal digits of `n`, padded with leading zeros to at least `width` characters.
pub open spec fn decimal_padded(n: nat, width: nat) -> Seq<char> {
    if decimal(n).len() >= width {
        decimal(n)
    } else {
        zeros((width - decimal(n).len()) as nat) + decimal(n)
    }
}

pub(crate) fn digit_str(d: u8) -> (r: &'static str)
    requires
        d < 16,
    ensures
        r@ == seq![digit_char(d as int)],
{
    match d {
        0 => {
            proof {
                reveal_strlit("0");
            }
            "0"
        },
        1 => {
            proof {
                reveal_strlit("1");
            }
            "1"
        },
        2 => {
            proof {
                reveal_strlit("2");
            }
            "2"
        },
        3 => {
            proof {
                reveal_strlit("3");
            }
            "3"
        },
        4 => {
            proof {
                reveal_strlit("4");
            }
            "4"
        },
        5 => {
            proof {
                reveal_strlit("5");
            }
            "5"
        },
        6 => {
            proof {
                reveal_strlit("6");
            }
            "6"
        },
        7 => {
            proof {
                reveal_strlit("7");
            }
            "7"
        },
        8 => {
            proof {
                reveal_strlit("8");
            }
            "8"
        },
        9 => {
            proof {
                reveal_strlit("9");
            }
            "9"
        },
        10 => {
            proof {
                reveal_strlit("a");
            }
            "a"
        },
        11 => {
            proof {
                reveal_strlit("b");
            }
            "b"
        },
        12 => {
            proof {
                reveal_strlit("c");
            }
            "c"
        },
        13 => {
            proof {
                reveal_strlit("d");
            }
            "d"
        },
        14 => {
            proof {
                reveal_strlit("e");
            }
            "e"
        },
        _ => {
            proof {
                reveal_strlit("f");
            }
            "f"
        },
    }
}

/// Appends the decimal digits of `n`.
pub fn push_decimal(text: &mut String, n: u64)
    ensures
        final(text)@ == old(text)@ + decimal(n as nat),
    decreases n,
{
    if n >= 10 {
        push_decimal(text, n / 10);
    }
    text.append(digit_str((n % 10) as u8));
    proof {
        if n >= 10 {
            assert(final(text)@ =~= old(text)@ + decimal(n as nat));
        } else {
            assert(final(text)@ =~= old(text)@ + decimal(n as nat));
        }
    }
}

/// Appends the last `width` hexadecimal digits of `n`.
pub fn push_hex(text: &mut String, n: u64, width: u8)
    ensures
        final(text)@ == old(text)@ + hex_fixed(n as nat, width as nat),
    decreases width,
{
    if width == 0 {
        assert(final(text)@ =~= old(text)@ + hex_fixed(n as nat, width as nat));
        return;
    }
    push_hex(text, n / 16, width - 1);
    text.append(digit_str((n % 16) as u8));
    assert(final(text)@ =~= old(text)@ + hex_fixed(n as nat, width as nat));
}

pub open spec fn pow10(k: nat) -> nat
    decreases k,
{
    if k == 0 {
        1
    } else {
        10 * pow10((k - 1) as nat)
    }
}

/// A number below `10^k` has at most `k` decimal digits.
proof fn lemma_decimal_len(n: nat, k: nat)
    requires
        k >= 1,
        n < pow10(k),
    ensures
        1 <= decimal(n).len() <= k,
    decreases n,
{
    if n >= 10 {
        assert(k >= 2) by {
            if k == 1 {
                assert(pow10(1) == 10) by {
                    reveal_with_fuel(pow10, 2);
                }
            }
        }
        assert(n / 10 < pow10((k - 1) as nat));
        lemma_decimal_len(n / 10, (k - 1) as nat);
    }
}

fn decimal_len(n: u64) -> (r: usize)
    ensures
        r as int == decimal(n as nat).len(),
        1 <= r <= 20,
    decreases n,
{
    proof {
        assert(pow10(20) == 100_000_000_000_000_000_000) by {
            reveal_with_fuel(pow10, 21);
        }
        lemma_decimal_len(n as nat, 20);
    }
    if n >= 10 {
        let k = decimal_len(n / 10);
        k + 1
    } else {
        1
    }
}

/// Appends the decimal digits of `n`, padded with zeros to `width` characters.
pub fn push_padded(text: &mut String, n: u64, width: u8)
    ensures
        final(text)@ == old(text)@ + decimal_padded(n as nat, width as nat),
{
    let digits = decimal_len(n);
    let ghost start = text@;
    if digits < width as usize {
        let mut k: usize = 0;
        let missing = width as usize - digits;
        while k < missing
            invariant
                k <= missing,
                text@ == start + zeros(k as nat),
            decreases missing - k,
        {
            proof {
                reveal_strlit("0");
            }
            text.append("0");
            k = k + 1;
            assert(text@ =~= start + zeros(k as nat));
        }
    }
    push_decimal(text, n);
    assert(text@ =~= start + decimal_padded(n as nat, width as nat));
}

} // verus!
