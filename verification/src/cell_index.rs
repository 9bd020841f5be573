//! Row and column coordinates for the grid, with overflow-checked stepping
//! and the spreadsheet-style base-26 column display.
//!
//! Rows count from one, columns from zero. Column names enumerate `A` … `Z`,
//! then `AA` … `ZZ`, and so on: the bijective base-26 encoding over the
//! letters `A` to `Z`.

use vstd::prelude::*;

use crate::strings::string_from_chars;

verus! {

/// The decimal digit character for `d`.
pub open spec fn digit_char(d: int) -> char
    recommends
        0 <= d <= 9,
{
    ((0x30 + d) as u8) as char
}

/// The decimal rendering of `n`, most significant digit first.
pub open spec fn dec_str(n: nat) -> Seq<char>
    decreases n,
{
    if n < 10 {
        seq![digit_char(n as int)]
    } else {
        dec_str(n / 10).push(digit_char((n % 10) as int))
    }
}

/// The column letter for `d`: `A` for 0 through `Z` for 25.
pub open spec fn letter_char(d: int) -> char
    recommends
        0 <= d <= 25,
{
    ((0x41 + d) as u8) as char
}

/// The bijective base-26 column name for index `n`: `A` for 0, `Z` for 25,
/// `AA` for 26, and so on.
pub open spec fn col_name(n: nat) -> Seq<char>
    decreases n,
{
    if n < 26 {
        seq![letter_char(n as int)]
    } else {
        col_name((n / 26 - 1) as nat).push(letter_char((n % 26) as int))
    }
}

/// Reversing after one more digit puts that digit in front.
proof fn lemma_reverse_push(s: Seq<char>, c: char)
    ensures
        s.push(c).reverse() == seq![c] + s.reverse(),
{
    assert(s.push(c).reverse() =~= seq![c] + s.reverse());
}

/// A one-based row index.
#[derive(Clone, Copy, Debug, PartialEq, Eq, PartialOrd, Ord, Hash)]
pub struct Row {
    v: u128,
}

impl Row {
    /// The row's one-based numeric value.
    pub closed spec fn value(&self) -> u128 {
        self.v
    }

    /// A row index is valid when it counts from one.
    pub open spec fn wf(&self) -> bool {
        self.value() >= 1
    }

    /// The first row.
    pub fn first() -> (r: Row)
        ensures
            r.value() == 1,
            r.wf(),
    {
        Row { v: 1 }
    }

    /// The numeric value.
    pub fn get(&self) -> (n: u128)
        ensures
            n == self.value(),
    {
        self.v
    }

    /// Step down by `rhs` rows, refusing on overflow.
    pub fn checked_add(self, rhs: u128) -> (r: Option<Row>)
        requires
            self.wf(),
        ensures
            self.value() + rhs <= u128::MAX ==> (r matches Some(x) && x.value() == self.value()
                + rhs && x.wf()),
            self.value() + rhs > u128::MAX ==> r is None,
    {
        if rhs > u128::MAX - self.v {
            Option::None
        } else {
            Option::Some(Row { v: self.v + rhs })
        }
    }

    /// Step up by `rhs` rows, refusing to leave the first row.
    pub fn checked_sub(self, rhs: u128) -> (r: Option<Row>)
        requires
            self.wf(),
        ensures
            self.value() - rhs >= 1 ==> (r matches Some(x) && x.value() == self.value() - rhs
                && x.wf()),
            self.value() - rhs < 1 ==> r is None,
    {
        if rhs < self.v {
            Option::Some(Row { v: self.v - rhs })
        } else {
            Option::None
        }
    }

    /// The row's display form: its decimal value.
    pub fn name(&self) -> (s: String)
        requires
            self.wf(),
        ensures
            s@ == dec_str(self.value() as nat),
    {
        let ghost v0 = self.v;
        let mut digits: Vec<char> = Vec::new();
        let mut n = self.v;
        loop
            invariant_except_break
                n >= 1,
                dec_str(v0 as nat) == dec_str(n as nat) + digits@.reverse(),
            ensures
                dec_str(v0 as nat) == digits@.reverse(),
            decreases n,
        {
            let d = (n % 10) as u8;
            let c = (0x30 + d) as char;
            let ghost digits0 = digits@;
            digits.push(c);
            proof {
                lemma_reverse_push(digits0, c);
            }
            if n < 10 {
                proof {
                    assert(dec_str(v0 as nat) =~= digits@.reverse());
                }
                break ;
            }
            n = n / 10;
            proof {
                assert(dec_str(v0 as nat) =~= dec_str(n as nat) + digits@.reverse());
            }
        }
        let mut out: Vec<char> = Vec::new();
        let k = digits.len();
        let mut i: usize = 0;
        while i < k
            invariant
                i <= k,
                k == digits@.len(),
                out@ == digits@.reverse().take(i as int),
            decreases k - i,
        {
            out.push(digits[k - 1 - i]);
            proof {
                assert(out@ =~= digits@.reverse().take(i + 1));
            }
            i = i + 1;
        }
        proof {
            assert(out@ =~= digits@.reverse());
        }
        string_from_chars(&out)
    }
}

/// A zero-based column index.
#[derive(Clone, Copy, Debug, PartialEq, Eq, PartialOrd, Ord, Hash)]
pub struct Col {
    v: u128,
}

impl Col {
    /// The column's zero-based numeric value.
    pub closed spec fn value(&self) -> u128 {
        self.v
    }

    /// The first column.
    pub fn first() -> (r: Col)
        ensures
            r.value() == 0,
    {
        Col { v: 0 }
    }

    /// The numeric value.
    pub fn get(&self) -> (n: u128)
        ensures
            n == self.value(),
    {
        self.v
    }

    /// Step right by `rhs` columns, refusing on overflow.
    pub fn checked_add(self, rhs: u128) -> (r: Option<Col>)
        ensures
            self.value() + rhs <= u128::MAX ==> (r matches Some(x) && x.value() == self.value()
                + rhs),
            self.value() + rhs > u128::MAX ==> r is None,
    {
        if rhs > u128::MAX - self.v {
            Option::None
        } else {
            Option::Some(Col { v: self.v + rhs })
        }
    }

    /// Step left by `rhs` columns, refusing to pass the first column.
    pub fn checked_sub(self, rhs: u128) -> (r: Option<Col>)
        ensures
            rhs <= self.value() ==> (r matches Some(x) && x.value() == self.value() - rhs),
            rhs > self.value() ==> r is None,
    {
        if rhs > self.v {
            Option::None
        } else {
            Option::Some(Col { v: self.v - rhs })
        }
    }

    /// The column's display form: its bijective base-26 letter name.
    pub fn name(&self) -> (s: String)
        ensures
            s@ == col_name(self.value() as nat),
    {
        name_from_index(self.v)
    }
}

/// The bijective base-26 letter name for a zero-based column index: index 0
/// is `A`, 25 is `Z`, 26 is `AA`, 701 is `ZZ`.
pub fn name_from_index(col: u128) -> (s: String)
    ensures
        s@ == col_name(col as nat),
{
    let ghost v0 = col;
    let mut digits: Vec<char> = Vec::new();
    let mut n = col;
    loop
        invariant_except_break
            col_name(v0 as nat) == col_name(n as nat) + digits@.reverse(),
        ensures
            col_name(v0 as nat) == digits@.reverse(),
        decreases n,
    {
        let d = (n % 26) as u8;
        let c = (0x41 + d) as char;
        let ghost digits0 = digits@;
        digits.push(c);
        proof {
            lemma_reverse_push(digits0, c);
        }
        if n < 26 {
            proof {
                assert(col_name(v0 as nat) =~= digits@.reverse());
            }
            break ;
        }
        n = n / 26 - 1;
        proof {
            assert(col_name(v0 as nat) =~= col_name(n as nat) + digits@.reverse());
        }
    }
    let mut out: Vec<char> = Vec::new();
    let k = digits.len();
    let mut i: usize = 0;
    while i < k
        invariant
            i <= k,
            k == digits@.len(),
            out@ == digits@.reverse().take(i as int),
        decreases k - i,
    {
        out.push(digits[k - 1 - i]);
        proof {
            assert(out@ =~= digits@.reverse().take(i + 1));
        }
        i = i + 1;
    }
    proof {
        assert(out@ =~= digits@.reverse());
    }
    string_from_chars(&out)
}

} // verus!
