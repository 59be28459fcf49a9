//! Twenty-byte account addresses and their textual form.

use vstd::prelude::*;

verus! {

/// A 20-byte account or contract address.
#[derive(Clone, Copy, Debug, Hash)]
pub struct Address {
    pub bytes: [u8; 20],
}

impl View for Address {
    type V = Seq<u8>;

    open spec fn view(&self) -> Seq<u8> {
        self.bytes@
    }
}

impl Address {
    /// Wraps the given bytes.
    pub fn new(bytes: [u8; 20]) -> (r: Address)
        ensures
            r.bytes == bytes,
    {
        Address { bytes }
    }

    /// The 20 bytes of the address.
    pub fn to_bytes(&self) -> (r: [u8; 20])
        ensures
            r == self.bytes,
    {
        self.bytes
    }
}

/// Two addresses are equal exactly when their byte views are.
pub proof fn lemma_address_eq_view(a: Address, b: Address)
    ensures
        (a == b) <==> (a@ == b@),
{
    if a@ == b@ {
        assert(a.bytes =~= b.bytes);
    }
}

impl PartialEq for Address {
    fn eq(&self, other: &Self) -> (r: bool) {
        let mut i: usize = 0;
        while i < 20
            invariant
                i <= 20,
                forall|j: int| 0 <= j < i ==> self.bytes[j] == other.bytes[j],
            decreases 20 - i,
        {
            if self.bytes[i] != other.bytes[i] {
                return false;
            }
            i = i + 1;
        }
        proof {
            assert(self.bytes =~= other.bytes);
        }
        true
    }
}

impl Eq for Address {
}

impl vstd::std_specs::cmp::PartialEqSpecImpl for Address {
    open spec fn obeys_eq_spec() -> bool {
        true
    }

    open spec fn eq_spec(&self, other: &Address) -> bool {
        *self == *other
    }
}

/// The value of a hexadecimal digit, if `c` is one (either case).
pub open spec fn hex_digit_value(c: char) -> Option<int> {
    let v = c as u32 as int;
    if 48 <= v <= 57 {
        Some(v - 48)
    } else if 97 <= v <= 102 {
        Some(v - 87)
    } else if 65 <= v <= 70 {
        Some(v - 55)
    } else {
        None
    }
}

/// `s` without a leading `0x` or `0X`.
pub open spec fn strip_hex_prefix(s: Seq<char>) -> Seq<char> {
    if s.len() >= 2 && s[0] == '0' && (s[1] == 'x' || s[1] == 'X') {
        s.skip(2)
    } else {
        s
    }
}

/// `s` is an address in hexadecimal: 40 hex digits, after an optional `0x`.
pub open spec fn hex_address_ok(s: Seq<char>) -> bool {
    let d = strip_hex_prefix(s);
    &&& d.len() == 40
    &&& forall|i: int| 0 <= i < 40 ==> (#[trigger] hex_digit_value(d[i])) is Some
}

/// The 20 bytes that the 40 hex digits of `s` stand for, two digits a byte.
pub open spec fn hex_address_bytes(s: Seq<char>) -> Seq<u8> {
    let d = strip_hex_prefix(s);
    Seq::new(
        20,
        |i: int| (hex_digit_value(d[2 * i]).unwrap() * 16 + hex_digit_value(d[2 * i + 1]).unwrap()) as u8,
    )
}

/// alloy-primitives `Address::from_str` (hex decoding by const-hex): claimed
/// to accept exactly an optional `0x`/`0X` followed by 40 hex digits of
/// either case, and to return the bytes they stand for.
#[verifier::external_body]
pub(crate) fn parse_address(s: &str) -> (r: Option<Address>)
    ensures
        r is Some <==> hex_address_ok(s@),
        r matches Some(a) ==> a@ == hex_address_bytes(s@),
{
    match s.parse::<alloy::primitives::Address>() {
        Ok(a) => Some(Address { bytes: a.into_array() }),
        Err(_) => None,
    }
}

/// `c` is one of the digits 0 to 9.
pub open spec fn is_decimal_digit(c: char) -> bool {
    48 <= c as u32 <= 57
}

/// The number that the decimal digits `d` stand for.
pub open spec fn decimal_value(d: Seq<char>) -> nat
    decreases d.len(),
{
    if d.len() == 0 {
        0
    } else {
        decimal_value(d.drop_last()) * 10 + (d.last() as u32 - 48) as nat
    }
}

/// `s` as a `u32` in decimal: an optional `+`, then at least one digit and
/// nothing else, standing for a number that fits.
pub open spec fn spec_parse_u32(s: Seq<char>) -> Option<u32> {
    let d = if s.len() > 0 && s[0] == '+' {
        s.skip(1)
    } else {
        s
    };
    if d.len() > 0 && (forall|i: int| 0 <= i < d.len() ==> is_decimal_digit(#[trigger] d[i]))
        && decimal_value(d) <= u32::MAX {
        Some(decimal_value(d) as u32)
    } else {
        None
    }
}

/// std `str::parse::<u32>`: claimed, as its documentation says, to accept
/// an optional `+` followed by decimal digits only, and to fail on an empty
/// string, on any other character and on overflow.
#[verifier::external_body]
pub(crate) fn parse_u32(s: &str) -> (r: Option<u32>)
    ensures
        r == spec_parse_u32(s@),
{
    match s.parse::<u32>() {
        Ok(v) => Some(v),
        Err(_) => None,
    }
}

} // verus!
