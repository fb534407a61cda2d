//! Ownership and permission properties of items, read from their text form.
use vstd::prelude::*;

use crate::text_util::chars_of;

verus! {

/// Why item properties could not be read
#[derive(Debug, Clone, PartialEq, Eq)]
pub enum MetaError {
    /// The permissions string is malformed (the string given)
    PermissionFormatError(String),
    /// The properties document could not be read (the reason given)
    DocumentError(String),
}

/// Whether a character is an octal digit
pub open spec fn is_octal_digit(c: char) -> bool {
    '0' <= c && c <= '7'
}

/// The value of a sequence of octal digits
pub open spec fn octal_value(digits: Seq<char>) -> int
    decreases digits.len(),
{
    if digits.len() == 0 {
        0
    } else {
        octal_value(digits.drop_last()) * 8 + (digits.last() as int - '0' as int)
    }
}

/// The characters after an optional leading `+`
pub open spec fn unsigned_digits(s: Seq<char>) -> Seq<char> {
    if s.len() > 0 && s[0] == '+' {
        s.drop_first()
    } else {
        s
    }
}

/// Whether all characters are octal digits
pub open spec fn all_octal(digits: Seq<char>) -> bool {
    forall|i: int| 0 <= i < digits.len() ==> is_octal_digit(#[trigger] digits[i])
}

/// The value of an unsigned 16 bit number in base 8 (with an optional leading `+`),
/// as `u16::from_str_radix(s, 8)` reads it
pub open spec fn parse_octal_u16(s: Seq<char>) -> Option<u16> {
    let digits = unsigned_digits(s);
    if digits.len() == 0 || !all_octal(digits) {
        None
    } else if octal_value(digits) > u16::MAX {
        None
    } else {
        Some(octal_value(digits) as u16)
    }
}

/// Octal values only grow as digits are appended
proof fn lemma_octal_value_grows(digits: Seq<char>, n: int)
    requires
        0 <= n <= digits.len(),
        forall|i: int| 0 <= i < digits.len() ==> is_octal_digit(#[trigger] digits[i]),
    ensures
        octal_value(digits.take(n)) <= octal_value(digits),
        octal_value(digits) >= 0,
    decreases digits.len(),
{
    if digits.len() > 0 {
        if n == digits.len() {
            assert(digits.take(n) =~= digits);
        }
        let d = digits.drop_last();
        assert forall|i: int| 0 <= i < d.len() implies is_octal_digit(#[trigger] d[i]) by {
            assert(d[i] == digits[i]);
        }
        if n < digits.len() {
            assert(d.take(n) =~= digits.take(n));
            lemma_octal_value_grows(d, n);
        } else {
            lemma_octal_value_grows(d, 0);
        }
        assert(is_octal_digit(digits[digits.len() - 1]));
    } else {
        assert(digits.take(n) =~= digits);
    }
}

/// Reads an unsigned 16 bit number written in base 8 (with an optional leading `+`)
pub fn parse_octal(s: &[char]) -> (r: Option<u16>)
    ensures
        r == parse_octal_u16(s@),
{
    let start: usize = if s.len() > 0 && s[0] == '+' {
        1
    } else {
        0
    };
    let ghost digits = unsigned_digits(s@);
    assert(digits =~= s@.skip(start as int));
    if start == s.len() {
        return None;
    }
    let mut value: u32 = 0;
    let mut i: usize = start;
    while i < s.len()
        invariant
            start <= i <= s@.len(),
            digits == s@.skip(start as int),
            digits == unsigned_digits(s@),
            forall|j: int| start <= j < i ==> is_octal_digit(#[trigger] s@[j]),
            value as int == octal_value(s@.subrange(start as int, i as int)),
            value <= u16::MAX,
        decreases s@.len() - i,
    {
        let c = s[i];
        if !('0' <= c && c <= '7') {
            assert(digits[i - start] == c);
            assert(!is_octal_digit(digits[i - start]));
            assert(!(forall|j: int| 0 <= j < digits.len() ==> is_octal_digit(#[trigger] digits[j])));
            assert(parse_octal_u16(s@) is None);
            return None;
        }
        let digit = (c as u32) - ('0' as u32);
        assert(s@.subrange(start as int, i + 1).drop_last() =~= s@.subrange(start as int, i as int));
        let next = value * 8 + digit;
        assert(octal_value(s@.subrange(start as int, i + 1)) == next as int);
        if next > 0xffff {
            proof {
                let rest = s@.subrange(start as int, s@.len() as int);
                if all_octal(digits) {
                    assert(rest =~= digits);
                    assert(digits.take(i + 1 - start) =~= s@.subrange(start as int, i + 1));
                    lemma_octal_value_grows(digits, i + 1 - start);
                    assert(octal_value(digits) > u16::MAX);
                }
                assert(parse_octal_u16(s@) is None);
            }
            return None;
        }
        value = next;
        i += 1;
    }
    assert(s@.subrange(start as int, s@.len() as int) =~= digits);
    assert forall|j: int| 0 <= j < digits.len() implies is_octal_digit(#[trigger] digits[j]) by {
        assert(digits[j] == s@[start + j]);
    }
    Some(value as u16)
}

/// UNIX permissions given to an item
#[derive(Debug, Clone, Copy, PartialEq, Eq)]
pub struct Permissions(pub u16);

impl Permissions {
    /// The numeric permissions
    pub fn mode(&self) -> (r: u16)
        ensures
            r == self.0,
    {
        self.0
    }
}

/// Permissions in their text form, such as `"0o755"`
#[derive(Debug, Clone, PartialEq, Eq)]
pub struct RawPerms(pub String);

/// The permissions written as `0o` followed by octal digits, at most `0o777`
pub open spec fn parse_permissions(s: Seq<char>) -> Option<u16> {
    if s.len() < 2 || s[0] != '0' || s[1] != 'o' {
        None
    } else {
        match parse_octal_u16(s.skip(2)) {
            None => None,
            Some(v) => if v <= 0o777 {
                Some(v)
            } else {
                None
            },
        }
    }
}

/// The octal digit for a value below 8
pub open spec fn octal_digit(d: nat) -> char {
    if d == 0 {
        '0'
    } else if d == 1 {
        '1'
    } else if d == 2 {
        '2'
    } else if d == 3 {
        '3'
    } else if d == 4 {
        '4'
    } else if d == 5 {
        '5'
    } else if d == 6 {
        '6'
    } else {
        '7'
    }
}

/// The digits of `n` in base 8, without leading zeros (`0` for zero)
pub open spec fn octal_text(n: nat) -> Seq<char>
    decreases n,
{
    if n < 8 {
        seq![octal_digit(n)]
    } else {
        octal_text(n / 8).push(octal_digit(n % 8))
    }
}

/// Reading the octal digits of `n` gives `n` back
proof fn lemma_octal_text_value(n: nat)
    ensures
        octal_text(n).len() > 0,
        all_octal(octal_text(n)),
        octal_value(octal_text(n)) == n,
    decreases n,
{
    if n < 8 {
        let t = octal_text(n);
        assert(t.drop_last() =~= Seq::<char>::empty());
        assert(octal_value(Seq::<char>::empty()) == 0);
    } else {
        lemma_octal_text_value(n / 8);
        let t = octal_text(n);
        assert(t.drop_last() =~= octal_text(n / 8));
        assert forall|i: int| 0 <= i < t.len() implies is_octal_digit(#[trigger] t[i]) by {
            if i < t.len() - 1 {
                assert(t[i] == octal_text(n / 8)[i]);
            }
        }
    }
}

/// Permissions written as `0o` and their octal digits read back as the same permissions
pub proof fn lemma_permissions_round_trip(mode: u16)
    requires
        mode <= 0o777,
    ensures
        parse_permissions(seq!['0', 'o'] + octal_text(mode as nat)) == Some(mode),
{
    let t = octal_text(mode as nat);
    lemma_octal_text_value(mode as nat);
    let s = seq!['0', 'o'] + t;
    assert(s.skip(2) =~= t);
    assert(is_octal_digit(t[0]));
    assert(unsigned_digits(t) == t);
}

impl RawPerms {
    /// Reads the permissions, which must be written as `0o` followed by octal digits and be
    /// at most `0o777`
    pub fn to_permissions(&self) -> (r: Result<Permissions, MetaError>)
        ensures
            match r {
                Ok(p) => parse_permissions(self.0@) == Some(p.0),
                Err(e) => parse_permissions(self.0@) is None && e == MetaError::PermissionFormatError(
                    self.0,
                ),
            },
    {
        let chars = chars_of(self.0.as_str());
        if chars.len() < 2 || chars[0] != '0' || chars[1] != 'o' {
            return Err(MetaError::PermissionFormatError(self.0.clone()));
        }
        let digits = chars.as_slice().split_at(2).1;
        assert(digits@ =~= chars@.skip(2));
        match parse_octal(digits) {
            None => Err(MetaError::PermissionFormatError(self.0.clone())),
            Some(value) => {
                if value & 0o777 == value {
                    assert(value & 0o777 == value <==> value <= 0o777) by (bit_vector);
                    Ok(Permissions(value))
                } else {
                    assert(value & 0o777 == value <==> value <= 0o777) by (bit_vector);
                    Err(MetaError::PermissionFormatError(self.0.clone()))
                }
            },
        }
    }
}

/// Item properties as read from a document: all optional, permissions not yet checked
#[derive(Debug, Clone, Default, PartialEq, Eq)]
pub struct RawItemMeta {
    /// The owner, if given
    pub owner: Option<String>,
    /// The group, if given
    pub group: Option<String>,
    /// The permissions in text form, if given
    pub permissions: Option<RawPerms>,
}

/// Ownership and permissions of an item
#[derive(Debug, Clone, Default, PartialEq, Eq)]
pub struct ItemMeta {
    /// The owner, if given
    pub owner: Option<String>,
    /// The group, if given
    pub group: Option<String>,
    /// The permissions, if given
    pub permissions: Option<Permissions>,
}

impl ItemMeta {
    /// Checks the raw properties, reading their permissions
    pub fn try_from_raw(raw: RawItemMeta) -> (r: Result<ItemMeta, MetaError>)
        ensures
            match raw.permissions {
                None => r == Ok::<_, MetaError>(
                    ItemMeta { owner: raw.owner, group: raw.group, permissions: None },
                ),
                Some(p) => match parse_permissions(p.0@) {
                    None => r == Err::<ItemMeta, _>(MetaError::PermissionFormatError(p.0)),
                    Some(v) => r == Ok::<_, MetaError>(
                        ItemMeta {
                            owner: raw.owner,
                            group: raw.group,
                            permissions: Some(Permissions(v)),
                        },
                    ),
                },
            },
    {
        let permissions = match &raw.permissions {
            None => None,
            Some(p) => match p.to_permissions() {
                Ok(p) => Some(p),
                Err(e) => return Err(e),
            },
        };
        Ok(ItemMeta { owner: raw.owner, group: raw.group, permissions })
    }

    /// The owner, if given
    pub fn owner(&self) -> (r: &Option<String>)
        ensures
            *r == self.owner,
    {
        &self.owner
    }

    /// The group, if given
    pub fn group(&self) -> (r: &Option<String>)
        ensures
            *r == self.group,
    {
        &self.group
    }

    /// The permissions, if given
    pub fn permissions(&self) -> (r: Option<Permissions>)
        ensures
            r == self.permissions,
    {
        self.permissions
    }
}

} // verus!
