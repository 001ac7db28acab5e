//! Text for bit sequences and for the vectors that hold them.
//!
//! A bit sequence is written digit by digit, front first: one bit to a
//! binary digit, three to an octal digit, four to a hexadecimal digit. The
//! bits of a digit are read with the first bit as the most significant,
//! and the last digit takes the bits that are left.

use vstd::prelude::*;
use crate::order::BitOrder;
use crate::store::BitStore;
use crate::vec::BitVec;

verus! {

/// The character of a digit below sixteen.
pub open spec fn digit_char(v: nat, upper: bool) -> char {
    if v == 0 {
        '0'
    } else if v == 1 {
        '1'
    } else if v == 2 {
        '2'
    } else if v == 3 {
        '3'
    } else if v == 4 {
        '4'
    } else if v == 5 {
        '5'
    } else if v == 6 {
        '6'
    } else if v == 7 {
        '7'
    } else if v == 8 {
        '8'
    } else if v == 9 {
        '9'
    } else if v == 10 {
        if upper {
            'A'
        } else {
            'a'
        }
    } else if v == 11 {
        if upper {
            'B'
        } else {
            'b'
        }
    } else if v == 12 {
        if upper {
            'C'
        } else {
            'c'
        }
    } else if v == 13 {
        if upper {
            'D'
        } else {
            'd'
        }
    } else if v == 14 {
        if upper {
            'E'
        } else {
            'e'
        }
    } else {
        if upper {
            'F'
        } else {
            'f'
        }
    }
}

/// The number that a run of bits spells, first bit most significant.
pub open spec fn digit_value(bits: Seq<bool>) -> nat
    decreases bits.len(),
{
    if bits.len() == 0 {
        0
    } else {
        2 * digit_value(bits.drop_last()) + (if bits.last() {
            1nat
        } else {
            0nat
        })
    }
}

/// The digits of a bit sequence, `k` bits to a digit.
pub open spec fn radix_chars(bits: Seq<bool>, k: nat, upper: bool) -> Seq<char>
    decreases bits.len(),
{
    if bits.len() == 0 || k == 0 {
        Seq::empty()
    } else {
        let n = if k < bits.len() {
            k
        } else {
            bits.len()
        };
        seq![digit_char(digit_value(bits.take(n as int)), upper)] + radix_chars(
            bits.skip(n as int),
            k,
            upper,
        )
    }
}

/// The decimal digits of a number, without leading zeros.
pub open spec fn decimal_chars(n: nat) -> Seq<char>
    decreases n,
{
    if n < 10 {
        seq![digit_char(n, false)]
    } else {
        decimal_chars(n / 10).push(digit_char(n % 10, false))
    }
}

/// Calls `String::push`, which appends one character to the end of a
/// string.
#[verifier::external_body]
fn push_char(text: &mut String, c: char)
    ensures
        final(text)@ == old(text)@.push(c),
{
    text.push(c)
}

/// Calls `String::push_str`, which appends a string slice to the end of a
/// string.
#[verifier::external_body]
fn push_text(text: &mut String, more: &str)
    ensures
        final(text)@ == old(text)@ + more@,
{
    text.push_str(more)
}

/// The character of a digit below sixteen.
fn digit(v: u8, upper: bool) -> (c: char)
    requires
        v < 16,
    ensures
        c == digit_char(v as nat, upper),
{
    match v {
        0 => '0',
        1 => '1',
        2 => '2',
        3 => '3',
        4 => '4',
        5 => '5',
        6 => '6',
        7 => '7',
        8 => '8',
        9 => '9',
        10 => if upper {
            'A'
        } else {
            'a'
        },
        11 => if upper {
            'B'
        } else {
            'b'
        },
        12 => if upper {
            'C'
        } else {
            'c'
        },
        13 => if upper {
            'D'
        } else {
            'd'
        },
        14 => if upper {
            'E'
        } else {
            'e'
        },
        _ => if upper {
            'F'
        } else {
            'f'
        },
    }
}

/// Appends the decimal digits of a number to a string.
pub fn push_decimal(text: &mut String, n: usize)
    ensures
        final(text)@ == old(text)@ + decimal_chars(n as nat),
    decreases n,
{
    if n >= 10 {
        push_decimal(text, n / 10);
    }
    push_char(text, digit((n % 10) as u8, false));
    proof {
        let d = digit_char((n % 10) as nat, false);
        if n >= 10 {
            assert((old(text)@ + decimal_chars((n / 10) as nat)).push(d) =~= old(text)@
                + decimal_chars((n / 10) as nat).push(d));
        } else {
            assert(old(text)@.push(d) =~= old(text)@ + seq![d]);
        }
    }
}

/// Appends the digits of a bit sequence to a string, `k` bits to a digit,
/// where `k` is between one and four.
pub fn push_radix(text: &mut String, bits: &[bool], k: u8, upper: bool)
    requires
        1 <= k <= 4,
    ensures
        final(text)@ == old(text)@ + radix_chars(bits@, k as nat, upper),
{
    let n = bits.len();
    let mut i: usize = 0;
    proof {
        assert(bits@.skip(0) =~= bits@);
    }
    while i < n
        invariant
            1 <= k <= 4,
            n == bits@.len(),
            i <= n,
            text@ + radix_chars(bits@.skip(i as int), k as nat, upper) == old(text)@ + radix_chars(
                bits@,
                k as nat,
                upper,
            ),
        decreases n - i,
    {
        let left = n - i;
        let take: usize = if (k as usize) < left {
            k as usize
        } else {
            left
        };
        let mut v: u8 = 0;
        let mut j: usize = 0;
        proof {
            assert(bits@.subrange(i as int, i as int) =~= Seq::<bool>::empty());
        }
        while j < take
            invariant
                j <= take,
                take <= 4,
                i + take <= n,
                n == bits@.len(),
                v == digit_value(bits@.subrange(i as int, i + j)),
                j == 0 ==> v == 0,
                j == 1 ==> v <= 1,
                j == 2 ==> v <= 3,
                j == 3 ==> v <= 7,
                v <= 15,
            decreases take - j,
        {
            proof {
                let run = bits@.subrange(i as int, i + j + 1);
                assert(run.drop_last() =~= bits@.subrange(i as int, i + j));
                assert(run.last() == bits@[i + j]);
            }
            v = 2 * v + (if bits[i + j] {
                1
            } else {
                0
            });
            j = j + 1;
        }
        let ghost before = text@;
        push_char(text, digit(v, upper));
        proof {
            let rest = bits@.skip(i as int);
            assert(rest.take(take as int) =~= bits@.subrange(i as int, i + take));
            assert(rest.skip(take as int) =~= bits@.skip(i + take));
            assert(before.push(digit_char(v as nat, upper)) + radix_chars(
                bits@.skip(i + take),
                k as nat,
                upper,
            ) =~= before + radix_chars(rest, k as nat, upper));
        }
        i = i + take;
    }
    proof {
        assert(text@ + Seq::<char>::empty() =~= text@);
    }
}

impl<O: BitOrder, T: BitStore> BitVec<O, T> {
    /// What the vector's descriptor says, as a sequence of characters: the
    /// head, the length in bits and the capacity.
    pub open spec fn pointer_chars(&self) -> Seq<char> {
        "BitVec { head: "@ + decimal_chars(self.head()) + ", bits: "@ + decimal_chars(
            self@.len(),
        ) + ", capacity: "@ + decimal_chars(self.spec_capacity()) + " }"@
    }

    /// The live bits as digits, `k` bits to a digit, where `k` is between
    /// one and four.
    pub fn radix_text(&self, k: u8, upper: bool) -> (text: String)
        requires
            1 <= k <= 4,
        ensures
            text@ == radix_chars(self@, k as nat, upper),
    {
        let mut text = String::new();
        let bits = self.to_vec();
        push_radix(&mut text, bits.as_slice(), k, upper);
        proof {
            assert(Seq::<char>::empty() + radix_chars(self@, k as nat, upper) =~= radix_chars(
                self@,
                k as nat,
                upper,
            ));
        }
        text
    }

    /// The live bits as text: a `0` or a `1` for each, front first.
    pub fn display_text(&self) -> (text: String)
        ensures
            text@ == radix_chars(self@, 1, false),
    {
        self.radix_text(1, false)
    }

    /// What the vector's descriptor says, as text: the head, the length in
    /// bits and the capacity.
    pub fn pointer_text(&self) -> (text: String)
        ensures
            text@ == self.pointer_chars(),
    {
        let mut text = String::new();
        push_text(&mut text, "BitVec { head: ");
        push_decimal(&mut text, self.first_index() as usize);
        push_text(&mut text, ", bits: ");
        push_decimal(&mut text, self.len());
        push_text(&mut text, ", capacity: ");
        push_decimal(&mut text, self.capacity());
        push_text(&mut text, " }");
        proof {
            assert(text@ =~= self.pointer_chars());
        }
        text
    }

    /// The text that shows the vector to a developer: its bits, and in the
    /// alternate form the descriptor and a space before them.
    pub fn debug_text(&self, alternate: bool) -> (text: String)
        ensures
            text@ == (if alternate {
                self.pointer_chars() + " "@
            } else {
                Seq::<char>::empty()
            }) + radix_chars(self@, 1, false),
    {
        let mut text = String::new();
        if alternate {
            push_text(&mut text, self.pointer_text().as_str());
            push_text(&mut text, " ");
        }
        let bits = self.to_vec();
        push_radix(&mut text, bits.as_slice(), 1, false);
        proof {
            if alternate {
                assert(text@ =~= self.pointer_chars() + " "@ + radix_chars(self@, 1, false));
            } else {
                assert(text@ =~= Seq::<char>::empty() + radix_chars(self@, 1, false));
            }
        }
        text
    }
}

} // verus!
