//! Betting utilities shared by game variants: chip counts, and capped withdrawals and transfers
//! between stacks, where going all-in takes whatever the source holds.

use vstd::prelude::*;
use std::num::ParseIntError;
use crate::text::{dec_text, decimal, digit_char};

verus! {

/// A count of chips.
#[derive(Debug, Clone, Copy, PartialEq, Eq, Structural, PartialOrd, Ord, Hash)]
pub struct Chips(pub u64);

/// The decimal digits of `s`, read as a number.
pub open spec fn digits_value(s: Seq<char>) -> nat
    decreases s.len(),
{
    if s.len() == 0 {
        0
    } else {
        (digits_value(s.drop_last()) * 10 + (s.last() as int - '0' as int)) as nat
    }
}

/// Whether every character of `s` is a decimal digit.
pub open spec fn all_digits(s: Seq<char>) -> bool {
    forall|i: int| 0 <= i < s.len() ==> '0' <= #[trigger] s[i] <= '9'
}

/// The unsigned 64-bit number that `s` writes: an optional `+`, then at least one decimal
/// digit, with a value that fits.
pub open spec fn u64_text(s: Seq<char>) -> Option<nat> {
    let t = if s.len() > 0 && s[0] == '+' {
        s.drop_first()
    } else {
        s
    };
    if t.len() > 0 && all_digits(t) && digits_value(t) <= u64::MAX {
        Some(digits_value(t))
    } else {
        None
    }
}

/// The text of a chip count: with a leading `$`, or the bare number.
pub open spec fn chips_text(s: Seq<char>) -> Option<nat> {
    if s.len() > 0 && s[0] == '$' {
        u64_text(s.drop_first())
    } else {
        u64_text(s)
    }
}

/// The decimal text of a number is digits only, and reads back as that number.
proof fn lemma_dec_text_digits(n: nat)
    ensures
        dec_text(n).len() > 0,
        all_digits(dec_text(n)),
        digits_value(dec_text(n)) == n,
    decreases n,
{
    if n >= 10 {
        lemma_dec_text_digits(n / 10);
        let t = dec_text(n);
        assert(t.drop_last() =~= dec_text(n / 10));
        let d = n % 10;
        assert(t.last() == digit_char(d));
        assert(digit_char(d) as int - '0' as int == d);
        assert(n == (n / 10) * 10 + d);
        assert(digits_value(t) == (digits_value(t.drop_last()) * 10 + (t.last() as int - '0' as int)) as nat);
    } else {
        let t = dec_text(n);
        assert(t.drop_last() =~= Seq::<char>::empty());
        assert(digit_char(n) as int - '0' as int == n);
        assert(digits_value(t) == (digits_value(t.drop_last()) * 10 + (t.last() as int - '0' as int)) as nat);
    }
}

/// A chip count written out, with its dollar sign or as the bare number, reads back as the same
/// count.
pub proof fn lemma_chips_text_roundtrip(c: Chips)
    ensures
        chips_text(seq!['$'] + dec_text(c.0 as nat)) == Some(c.0 as nat),
        chips_text(dec_text(c.0 as nat)) == Some(c.0 as nat),
{
    let t = dec_text(c.0 as nat);
    lemma_dec_text_digits(c.0 as nat);
    assert((seq!['$'] + t).drop_first() =~= t);
    assert('0' <= t[0] <= '9');
}

#[verifier::external_type_specification]
#[verifier::external_body]
pub struct ExParseIntError(ParseIntError);

/// Reads an unsigned number with std's `<u64 as FromStr>::from_str` (through `str::parse`),
/// which per its documentation accepts an optional `+` and then decimal digits, and fails on
/// anything else, on no digits, and on values above `u64::MAX`. Which error it gives is not
/// stated.
#[verifier::external_body]
fn parse_u64(s: &str) -> (r: Result<u64, ParseIntError>)
    ensures
        r is Ok <==> u64_text(s@) is Some,
        r matches Ok(v) ==> u64_text(s@) == Some(v as nat),
{
    s.parse::<u64>()
}

impl Chips {
    pub fn new(value: u64) -> (r: Chips)
        ensures
            r.0 == value,
    {
        Chips(value)
    }

    /// The number of chips.
    pub fn value(&self) -> (r: u64)
        ensures
            r == self.0,
    {
        self.0
    }

    /// The chip count prefixed with a dollar sign.
    pub fn to_string(&self) -> (r: String)
        ensures
            r@ == seq!['$'] + dec_text(self.0 as nat),
    {
        let mut s = String::new();
        proof {
            reveal_strlit("$");
        }
        s.append("$");
        let d = decimal(self.0);
        s.append(d.as_str());
        proof {
            assert(s@ =~= seq!['$'] + dec_text(self.0 as nat));
        }
        s
    }

    /// The bare number of chips, as the alternate display form writes it.
    pub fn to_plain_string(&self) -> (r: String)
        ensures
            r@ == dec_text(self.0 as nat),
    {
        decimal(self.0)
    }

    /// Read a chip count from a plain number, or a number prefixed with a dollar sign.
    pub fn parse(s: &str) -> (r: Result<Chips, ParseIntError>)
        ensures
            r is Ok <==> chips_text(s@) is Some,
            r matches Ok(c) ==> chips_text(s@) == Some(c.0 as nat),
    {
        let n = s.unicode_len();
        if n > 0 && s.get_char(0) == '$' {
            let rest = s.substring_char(1, n);
            proof {
                assert(rest@ =~= s@.drop_first());
            }
            match parse_u64(rest) {
                Ok(v) => Ok(Chips(v)),
                Err(e) => Err(e),
            }
        } else {
            match parse_u64(s) {
                Ok(v) => Ok(Chips(v)),
                Err(e) => Err(e),
            }
        }
    }
}

impl std::str::FromStr for Chips {
    type Err = ParseIntError;

    fn from_str(s: &str) -> (r: Result<Chips, ParseIntError>)
        ensures
            r is Ok <==> chips_text(s@) is Some,
            r matches Ok(c) ==> chips_text(s@) == Some(c.0 as nat),
    {
        Chips::parse(s)
    }
}

impl From<u64> for Chips {
    fn from(value: u64) -> (r: Chips) {
        Chips(value)
    }
}

impl vstd::std_specs::convert::FromSpecImpl<u64> for Chips {
    open spec fn obeys_from_spec() -> bool {
        true
    }

    open spec fn from_spec(value: u64) -> Chips {
        Chips(value)
    }
}

impl From<Chips> for u64 {
    fn from(value: Chips) -> (r: u64) {
        value.0
    }
}

impl vstd::std_specs::convert::FromSpecImpl<Chips> for u64 {
    open spec fn obeys_from_spec() -> bool {
        true
    }

    open spec fn from_spec(value: Chips) -> u64 {
        value.0
    }
}

impl std::ops::Add<Chips> for Chips {
    type Output = Chips;

    fn add(self, other: Chips) -> (r: Chips) {
        Chips(self.0 + other.0)
    }
}

impl vstd::std_specs::ops::AddSpecImpl<Chips> for Chips {
    open spec fn obeys_add_spec() -> bool {
        true
    }

    open spec fn add_req(self, rhs: Chips) -> bool {
        self.0 + rhs.0 <= u64::MAX
    }

    open spec fn add_spec(self, rhs: Chips) -> Chips {
        Chips((self.0 + rhs.0) as u64)
    }
}

impl std::ops::Sub<Chips> for Chips {
    type Output = Chips;

    fn sub(self, other: Chips) -> (r: Chips) {
        Chips(self.0 - other.0)
    }
}

impl vstd::std_specs::ops::SubSpecImpl<Chips> for Chips {
    open spec fn obeys_sub_spec() -> bool {
        true
    }

    open spec fn sub_req(self, rhs: Chips) -> bool {
        self.0 >= rhs.0
    }

    open spec fn sub_spec(self, rhs: Chips) -> Chips {
        Chips((self.0 - rhs.0) as u64)
    }
}

impl std::ops::Mul<u64> for Chips {
    type Output = Chips;

    fn mul(self, other: u64) -> (r: Chips) {
        Chips(self.0 * other)
    }
}

impl vstd::std_specs::ops::MulSpecImpl<u64> for Chips {
    open spec fn obeys_mul_spec() -> bool {
        true
    }

    open spec fn mul_req(self, rhs: u64) -> bool {
        self.0 * rhs <= u64::MAX
    }

    open spec fn mul_spec(self, rhs: u64) -> Chips {
        Chips((self.0 * rhs) as u64)
    }
}

/// Withdraw the requested amount, or all that the source holds when it holds less, returning
/// the amount withdrawn and whether the source is now empty.
pub fn withdraw_capped(from: &mut Chips, amount: Chips) -> (r: (Chips, bool))
    ensures
        r.0.0 == if amount.0 <= old(from).0 {
            amount.0
        } else {
            old(from).0
        },
        final(from).0 == old(from).0 - r.0.0,
        r.1 == (final(from).0 == 0),
{
    // the amount actually withdrawn is the lesser of the requested and available counts
    let actual = if amount.0 <= from.0 {
        amount
    } else {
        *from
    };
    from.0 = from.0 - actual.0;
    let depleted = from.0 == 0;
    (actual, depleted)
}

/// Deposit an amount into a stack.
pub fn deposit(to: &mut Chips, amount: Chips)
    requires
        old(to).0 + amount.0 <= u64::MAX,
    ensures
        final(to).0 == old(to).0 + amount.0,
{
    to.0 = to.0 + amount.0;
}

/// A capped withdrawal from `from`, deposited into `to`, returning the amount moved and whether
/// `from` is now empty. No chips are made or lost.
pub fn transfer_capped(to: &mut Chips, from: &mut Chips, amount: Chips) -> (r: (Chips, bool))
    requires
        old(to).0 + (if amount.0 <= old(from).0 {
            amount.0
        } else {
            old(from).0
        }) <= u64::MAX,
    ensures
        r.0.0 == if amount.0 <= old(from).0 {
            amount.0
        } else {
            old(from).0
        },
        final(from).0 == old(from).0 - r.0.0,
        final(to).0 == old(to).0 + r.0.0,
        r.1 == (final(from).0 == 0),
        final(to).0 + final(from).0 == old(to).0 + old(from).0,
{
    let (actual, depleted) = withdraw_capped(from, amount);
    deposit(to, actual);
    (actual, depleted)
}

} // verus!
