//! Amounts, as people write them on a shopping list.

use vstd::prelude::*;
use vstd::string::StringExecFns;

verus! {

/// An amount of something: a count in one of a few usual units, or free
/// text.
#[derive(Debug)]
pub enum Quantity {
    Pieces(u64),
    Kg(u64),
    G(u64),
    Cans(u64),
    Packs(u64),
    Other(String),
}

/// The character of the decimal digit `digit`.
pub open spec fn digit_char(digit: nat) -> char {
    if digit == 0 {
        '0'
    } else if digit == 1 {
        '1'
    } else if digit == 2 {
        '2'
    } else if digit == 3 {
        '3'
    } else if digit == 4 {
        '4'
    } else if digit == 5 {
        '5'
    } else if digit == 6 {
        '6'
    } else if digit == 7 {
        '7'
    } else if digit == 8 {
        '8'
    } else {
        '9'
    }
}

/// The decimal numeral of `n`, without leading zeros.
pub open spec fn decimal(n: nat) -> Seq<char>
    decreases n,
{
    if n < 10 {
        seq![digit_char(n)]
    } else {
        decimal(n / 10).push(digit_char(n % 10))
    }
}

impl Quantity {
    /// The amount as people read it: the number and its unit, `piece` in
    /// the singular for exactly one; free text as it is.
    pub open spec fn text(self) -> Seq<char> {
        match self {
            Quantity::Pieces(n) => if n == 1 {
                decimal(n as nat) + " piece"@
            } else {
                decimal(n as nat) + " pieces"@
            },
            Quantity::Kg(n) => decimal(n as nat) + " kg"@,
            Quantity::G(n) => decimal(n as nat) + " g"@,
            Quantity::Cans(n) => decimal(n as nat) + " cans"@,
            Quantity::Packs(n) => decimal(n as nat) + " packs"@,
            Quantity::Other(s) => s@,
        }
    }

    /// Writes the amount out for people to read.
    pub fn to_text(&self) -> (text: String)
        ensures
            text@ == self.text(),
    {
        match self {
            Quantity::Pieces(n) => {
                if *n == 1 {
                    decimal_text(*n).concat(" piece")
                } else {
                    decimal_text(*n).concat(" pieces")
                }
            },
            Quantity::Kg(n) => decimal_text(*n).concat(" kg"),
            Quantity::G(n) => decimal_text(*n).concat(" g"),
            Quantity::Cans(n) => decimal_text(*n).concat(" cans"),
            Quantity::Packs(n) => decimal_text(*n).concat(" packs"),
            Quantity::Other(s) => s.clone(),
        }
    }
}

impl Clone for Quantity {
    fn clone(&self) -> (copy: Self)
        ensures
            copy == *self,
    {
        match self {
            Quantity::Pieces(n) => Quantity::Pieces(*n),
            Quantity::Kg(n) => Quantity::Kg(*n),
            Quantity::G(n) => Quantity::G(*n),
            Quantity::Cans(n) => Quantity::Cans(*n),
            Quantity::Packs(n) => Quantity::Packs(*n),
            Quantity::Other(s) => Quantity::Other(s.clone()),
        }
    }
}

/// The one-character text of the decimal digit `digit`.
fn digit_text(digit: u64) -> (text: &'static str)
    requires
        digit < 10,
    ensures
        text@ == seq![digit_char(digit as nat)],
{
    proof {
        reveal_strlit("0");
        reveal_strlit("1");
        reveal_strlit("2");
        reveal_strlit("3");
        reveal_strlit("4");
        reveal_strlit("5");
        reveal_strlit("6");
        reveal_strlit("7");
        reveal_strlit("8");
        reveal_strlit("9");
    }
    let text = if digit == 0 {
        "0"
    } else if digit == 1 {
        "1"
    } else if digit == 2 {
        "2"
    } else if digit == 3 {
        "3"
    } else if digit == 4 {
        "4"
    } else if digit == 5 {
        "5"
    } else if digit == 6 {
        "6"
    } else if digit == 7 {
        "7"
    } else if digit == 8 {
        "8"
    } else {
        "9"
    };
    assert(text@ =~= seq![digit_char(digit as nat)]);
    text
}

/// The decimal numeral of `n`.
pub fn decimal_text(n: u64) -> (text: String)
    ensures
        text@ == decimal(n as nat),
    decreases n,
{
    if n < 10 {
        String::from_str(digit_text(n))
    } else {
        let text = decimal_text(n / 10).concat(digit_text(n % 10));
        assert(text@ =~= decimal((n / 10) as nat).push(digit_char((n % 10) as nat)));
        text
    }
}

} // verus!
