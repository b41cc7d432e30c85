//! Circuit columns and their mapping to polynomial variable indices.

use crate::error::Error;
use vstd::prelude::*;
use vstd::string::StringExecFns;

verus! {

/// The number of private witness columns of the circuit.  Public input
/// columns are mapped to variable indices after the witness columns.
pub const NUMBER_OF_COLUMNS: usize = 15;

/// The gadgets that can be used in the circuit.  The selectors are defined at
/// setup time, can take only the values `0` or `1` and are public.
#[derive(Clone, Copy, Debug, PartialEq, Eq, Structural, Hash)]
pub enum Gadget {
    App,
    EllipticCurveAddition,
    EllipticCurveScaling,
    /// The Poseidon hash gadget.
    Poseidon,
}

/// A structured circuit position: a fixed selector, a public input column or
/// a private witness column.
#[derive(Clone, Copy, Debug, PartialEq, Eq, Structural)]
pub enum Column {
    Selector(Gadget),
    PublicInput(usize),
    X(usize),
}

/// The variable index a non-selector column maps to: private witness column
/// `i` to index `i`, public input column `i` to `NUMBER_OF_COLUMNS + i`.
/// Selector columns have no index.
pub open spec fn column_index(c: Column) -> int {
    match c {
        Column::X(i) => i as int,
        Column::PublicInput(i) => NUMBER_OF_COLUMNS as int + i as int,
        Column::Selector(_) => -1,
    }
}

/// Whether the column is a polynomial variable (selectors are not).
pub open spec fn column_is_variable(c: Column) -> bool {
    !(c is Selector)
}

impl Column {
    /// Converts the column into a dense, zero-based variable index for the
    /// polynomial engine.  Selectors are not polynomial variables in this
    /// representation, so converting one fails with `UnsupportedColumn`.
    pub fn to_variable_index(self) -> (r: Result<usize, Error>)
        requires
            (match self {
                Column::PublicInput(i) => i + NUMBER_OF_COLUMNS <= usize::MAX,
                _ => true,
            }),
        ensures
            r is Ok <==> column_is_variable(self),
            r is Ok ==> r->Ok_0 as int == column_index(self),
            r is Err ==> r->Err_0 == Error::UnsupportedColumn,
    {
        match self {
            Column::X(i) => Ok(i),
            Column::PublicInput(i) => Ok(NUMBER_OF_COLUMNS + i),
            Column::Selector(_) => Err(Error::UnsupportedColumn),
        }
    }
}

/// The decimal digit character for a value below ten.
pub open spec fn digit_char(n: int) -> char {
    if n == 0 {
        '0'
    } else if n == 1 {
        '1'
    } else if n == 2 {
        '2'
    } else if n == 3 {
        '3'
    } else if n == 4 {
        '4'
    } else if n == 5 {
        '5'
    } else if n == 6 {
        '6'
    } else if n == 7 {
        '7'
    } else if n == 8 {
        '8'
    } else {
        '9'
    }
}

/// The decimal rendering of a nonnegative integer, most significant digit
/// first.
pub open spec fn dec_digits(n: int) -> Seq<char>
    decreases n,
{
    if n < 10 {
        seq![digit_char(n)]
    } else {
        dec_digits(n / 10) + seq![digit_char(n % 10)]
    }
}

/// One decimal digit as a string slice.
fn digit_str(d: usize) -> (r: &'static str)
    requires
        d < 10,
    ensures
        r@ == seq![digit_char(d as int)],
{
    if d == 0 {
        proof {
            reveal_strlit("0");
        }
        "0"
    } else if d == 1 {
        proof {
            reveal_strlit("1");
        }
        "1"
    } else if d == 2 {
        proof {
            reveal_strlit("2");
        }
        "2"
    } else if d == 3 {
        proof {
            reveal_strlit("3");
        }
        "3"
    } else if d == 4 {
        proof {
            reveal_strlit("4");
        }
        "4"
    } else if d == 5 {
        proof {
            reveal_strlit("5");
        }
        "5"
    } else if d == 6 {
        proof {
            reveal_strlit("6");
        }
        "6"
    } else if d == 7 {
        proof {
            reveal_strlit("7");
        }
        "7"
    } else if d == 8 {
        proof {
            reveal_strlit("8");
        }
        "8"
    } else {
        proof {
            reveal_strlit("9");
        }
        "9"
    }
}

/// Renders a nonnegative integer in decimal.
fn usize_to_string(n: usize) -> (s: String)
    ensures
        s@ == dec_digits(n as int),
    decreases n,
{
    if n < 10 {
        String::from_str(digit_str(n))
    } else {
        let mut s = usize_to_string(n / 10);
        s.append(digit_str(n % 10));
        proof {
            assert(s@ =~= dec_digits(n as int));
        }
        s
    }
}

/// The LaTeX rendering of a column.
pub open spec fn latex_spec(c: Column) -> Seq<char> {
    match c {
        Column::Selector(Gadget::App) => "q_app"@,
        Column::Selector(Gadget::EllipticCurveAddition) => "q_ec_add"@,
        Column::Selector(Gadget::EllipticCurveScaling) => "q_ec_mul"@,
        Column::Selector(Gadget::Poseidon) => "q_pos"@,
        Column::PublicInput(i) => "pi_{"@ + dec_digits(i as int) + "}"@,
        Column::X(i) => "x_{"@ + dec_digits(i as int) + "}"@,
    }
}

/// The plain-text rendering of a column.
pub open spec fn text_spec(c: Column) -> Seq<char> {
    match c {
        Column::Selector(Gadget::App) => "q_app"@,
        Column::Selector(Gadget::EllipticCurveAddition) => "q_ec_add"@,
        Column::Selector(Gadget::EllipticCurveScaling) => "q_ec_mul"@,
        Column::Selector(Gadget::Poseidon) => "q_pos_next_row"@,
        Column::PublicInput(i) => "pi["@ + dec_digits(i as int) + "]"@,
        Column::X(i) => "x["@ + dec_digits(i as int) + "]"@,
    }
}

impl Column {
    /// The LaTeX rendering of the column, for the pretty printer.
    pub fn latex(&self) -> (s: String)
        ensures
            s@ == latex_spec(*self),
    {
        match self {
            Column::Selector(sel) => match sel {
                Gadget::App => String::from_str("q_app"),
                Gadget::EllipticCurveAddition => String::from_str("q_ec_add"),
                Gadget::EllipticCurveScaling => String::from_str("q_ec_mul"),
                Gadget::Poseidon => String::from_str("q_pos"),
            },
            Column::PublicInput(i) => {
                let mut s = String::from_str("pi_{");
                let num = usize_to_string(*i);
                s.append(num.as_str());
                s.append("}");
                proof {
                    assert(s@ =~= latex_spec(*self));
                }
                s
            },
            Column::X(i) => {
                let mut s = String::from_str("x_{");
                let num = usize_to_string(*i);
                s.append(num.as_str());
                s.append("}");
                proof {
                    assert(s@ =~= latex_spec(*self));
                }
                s
            },
        }
    }

    /// The plain-text rendering of the column, for the pretty printer.
    pub fn text(&self) -> (s: String)
        ensures
            s@ == text_spec(*self),
    {
        match self {
            Column::Selector(sel) => match sel {
                Gadget::App => String::from_str("q_app"),
                Gadget::EllipticCurveAddition => String::from_str("q_ec_add"),
                Gadget::EllipticCurveScaling => String::from_str("q_ec_mul"),
                Gadget::Poseidon => String::from_str("q_pos_next_row"),
            },
            Column::PublicInput(i) => {
                let mut s = String::from_str("pi[");
                let num = usize_to_string(*i);
                s.append(num.as_str());
                s.append("]");
                proof {
                    assert(s@ =~= text_spec(*self));
                }
                s
            },
            Column::X(i) => {
                let mut s = String::from_str("x[");
                let num = usize_to_string(*i);
                s.append(num.as_str());
                s.append("]");
                proof {
                    assert(s@ =~= text_spec(*self));
                }
                s
            },
        }
    }
}

} // verus!
