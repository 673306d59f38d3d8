//! The address value: conversions between notations and classification.

use vstd::prelude::*;

use vstd::string::StringSliceAdditionalSpecFns;

use crate::utils::{clean, clean_chars, grouped, is_valid, is_valid_notation, lemma_clean_valid, push_char};

verus! {

broadcast use vstd::string::is_ascii_spec_bytes;

/// Twelve lowercase hexadecimal digits: the normal form of an address.
pub open spec fn is_normalized(d: Seq<char>) -> bool {
    d.len() == 12 && forall|i: int|
        0 <= i < 12 ==> crate::utils::is_lower_hex_char(#[trigger] d[i])
}

/// The value of one hexadecimal digit of either case.
pub open spec fn hex_value(c: char) -> nat {
    if '0' <= c && c <= '9' {
        (c as u32 - '0' as u32) as nat
    } else if 'a' <= c && c <= 'f' {
        (c as u32 - 'a' as u32 + 10) as nat
    } else if 'A' <= c && c <= 'F' {
        (c as u32 - 'A' as u32 + 10) as nat
    } else {
        0
    }
}

/// The weight of bit `j` (0 = least significant) of a four-bit value.
pub open spec fn bit_weight(j: int) -> nat {
    if j == 0 {
        1
    } else if j == 1 {
        2
    } else if j == 2 {
        4
    } else {
        8
    }
}

/// `'1'` where bit `j` of `v` is set, else `'0'`.
pub open spec fn bit_char(v: nat, j: int) -> char {
    if (v / bit_weight(j)) % 2 == 1 {
        '1'
    } else {
        '0'
    }
}

/// Each digit written as four binary digits, most significant first, in
/// the order of the digits; two digits make an octet of eight.
pub open spec fn binary_of(d: Seq<char>) -> Seq<char> {
    Seq::new(4 * d.len(), |i: int| bit_char(hex_value(d[i / 4]), 3 - i % 4))
}

/// The unsigned number that a string of `'0'` and `'1'` spells in base 2.
pub open spec fn binary_value(b: Seq<char>) -> nat
    decreases b.len(),
{
    if b.len() == 0 {
        0
    } else {
        2 * binary_value(b.drop_last()) + if b.last() == '1' {
            1nat
        } else {
            0nat
        }
    }
}

/// The unsigned number that a string of hexadecimal digits spells in base 16.
pub open spec fn hex_number(d: Seq<char>) -> nat
    decreases d.len(),
{
    if d.len() == 0 {
        0
    } else {
        16 * hex_number(d.drop_last()) + hex_value(d.last())
    }
}

/// Four-digit groups of `'0'`/`'1'` replace hexadecimal digits one for one,
/// so both strings spell the same number.
pub proof fn lemma_binary_value_of_digits(d: Seq<char>)
    ensures
        binary_value(binary_of(d)) == hex_number(d),
    decreases d.len(),
{
    if d.len() > 0 {
        let p = d.drop_last();
        lemma_binary_value_of_digits(p);
        let b = binary_of(d);
        let v = hex_value(d.last());
        let b3 = b.drop_last();
        let b2 = b3.drop_last();
        let b1 = b2.drop_last();
        let b0 = b1.drop_last();
        assert(b0 =~= binary_of(p));
        assert(b.last() == bit_char(v, 0));
        assert(b3.last() == bit_char(v, 1));
        assert(b2.last() == bit_char(v, 2));
        assert(b1.last() == bit_char(v, 3));
        assert(v < 16);
        assert(binary_value(b) == 2 * binary_value(b3) + if b.last() == '1' { 1nat } else { 0nat });
        assert(binary_value(b3) == 2 * binary_value(b2) + if b3.last() == '1' { 1nat } else { 0nat });
        assert(binary_value(b2) == 2 * binary_value(b1) + if b2.last() == '1' { 1nat } else { 0nat });
        assert(binary_value(b1) == 2 * binary_value(b0) + if b1.last() == '1' { 1nat } else { 0nat });
        assert(v == 8 * ((v / 8) % 2) + 4 * ((v / 4) % 2) + 2 * ((v / 2) % 2) + v % 2);
    }
}

spec fn pow16(n: nat) -> nat
    decreases n,
{
    if n == 0 {
        1
    } else {
        16 * pow16((n - 1) as nat)
    }
}

proof fn lemma_hex_number_bound(d: Seq<char>)
    ensures
        hex_number(d) < pow16(d.len()),
    decreases d.len(),
{
    if d.len() > 0 {
        lemma_hex_number_bound(d.drop_last());
        assert(hex_value(d.last()) < 16);
    }
}

/// The value of a hexadecimal digit.
fn digit_value(c: char) -> (r: u8)
    requires
        crate::utils::is_lower_hex_char(c),
    ensures
        r as nat == hex_value(c),
        r < 16,
{
    if c <= '9' {
        (c as u8) - 48
    } else {
        (c as u8) - 87
    }
}

/// The two least significant bits of the first octet are `00`: an
/// extended unique identifier, which carries an OUI.
pub open spec fn is_unique_kind(d: Seq<char>) -> bool {
    binary_of(d)[6] == '0' && binary_of(d)[7] == '0'
}

/// The four least significant bits of the first octet are `1010`: an
/// extended local identifier, which carries a CID.
pub open spec fn is_local_kind(d: Seq<char>) -> bool {
    &&& binary_of(d)[4] == '1'
    &&& binary_of(d)[5] == '0'
    &&& binary_of(d)[6] == '1'
    &&& binary_of(d)[7] == '0'
}

/// The name of the kind of an address: `unique` is tested first, then
/// `local`; what is neither is `unknown`.
pub open spec fn kind_name(d: Seq<char>) -> Seq<char> {
    if is_unique_kind(d) {
        "unique"@
    } else if is_local_kind(d) {
        "local"@
    } else {
        "unknown"@
    }
}

/// The I/G bit, the least significant bit of the first octet, is set.
pub open spec fn is_group_address(d: Seq<char>) -> bool {
    binary_of(d)[7] == '1'
}

/// The U/L bit, the second least significant bit of the first octet, is set.
pub open spec fn is_local_address(d: Seq<char>) -> bool {
    binary_of(d)[6] == '1'
}

/// The two fragments of an address, joined, give back its plain notation.
pub proof fn lemma_fragments_rejoin(d: Seq<char>)
    requires
        is_normalized(d),
    ensures
        d.subrange(0, 6) + d.subrange(6, 12) == d,
{
    assert(d.subrange(0, 6) + d.subrange(6, 12) =~= d);
}

/// An address, held as its twelve lowercase hexadecimal digits.
#[derive(Debug)]
pub struct MediaAccessControlAddress {
    value: String,
}

impl View for MediaAccessControlAddress {
    type V = Seq<char>;

    /// The twelve digits of the address.
    closed spec fn view(&self) -> Seq<char> {
        self.value@
    }
}

impl MediaAccessControlAddress {
    #[verifier::type_invariant]
    spec fn inv(&self) -> bool {
        is_normalized(self.value@)
    }

    /// Builds an address from 12 hexadecimal digits (`0-9`, `A-F` or `a-f`)
    /// in plain, hyphen, colon or dot notation.
    pub fn new(digits: &str) -> (r: Result<Self, String>)
        ensures
            is_valid_notation(digits@) <==> r is Ok,
            r matches Ok(a) ==> a@ == clean_chars(digits@) && is_normalized(a@),
            r matches Err(m) ==> m@ == "Pass in 12 hexadecimal digits."@,
    {
        if is_valid(digits) {
            let address = clean(digits);
            proof {
                lemma_clean_valid(digits@);
            }
            Ok(Self { value: address })
        } else {
            Err("Pass in 12 hexadecimal digits.".to_owned())
        }
    }

    /// The `i`-th digit.
    fn digit(&self, i: usize) -> (r: char)
        requires
            i < 12,
        ensures
            r == self@[i as int],
            crate::utils::is_lower_hex_char(r),
    {
        proof {
            use_type_invariant(self);
        }
        let s = self.value.as_str();
        let b = s.as_bytes();
        proof {
            assert(vstd::string::is_ascii(s));
        }
        b[i] as char
    }

    /// The binary representation: each digit as four binary digits, the
    /// most significant bit of each octet first.
    pub fn to_binary_representation(&self) -> (r: String)
        ensures
            r@ == binary_of(self@),
    {
        proof {
            use_type_invariant(self);
        }
        let mut out = String::new();
        let mut i: usize = 0;
        while i < 12
            invariant
                i <= 12,
                self@.len() == 12,
                out@ =~= binary_of(self@).take(4 * i),
            decreases 12 - i,
        {
            let v = digit_value(self.digit(i));
            proof {
                let bs = binary_of(self@);
                let hv = hex_value(self@[i as int]);
                assert(bs[4 * i + 0] == bit_char(hv, 3));
                assert(bs[4 * i + 1] == bit_char(hv, 2));
                assert(bs[4 * i + 2] == bit_char(hv, 1));
                assert(bs[4 * i + 3] == bit_char(hv, 0));
            }
            push_char(&mut out, if v / 8 % 2 == 1 { '1' } else { '0' });
            push_char(&mut out, if v / 4 % 2 == 1 { '1' } else { '0' });
            push_char(&mut out, if v / 2 % 2 == 1 { '1' } else { '0' });
            push_char(&mut out, if v % 2 == 1 { '1' } else { '0' });
            i = i + 1;
        }
        out
    }

    /// The decimal representation: the number that the binary
    /// representation spells in base 2.
    pub fn to_decimal_representation(&self) -> (r: u64)
        ensures
            r == binary_value(binary_of(self@)),
    {
        proof {
            use_type_invariant(self);
            lemma_binary_value_of_digits(self@);
        }
        let mut acc: u64 = 0;
        let mut i: usize = 0;
        while i < 12
            invariant
                i <= 12,
                self@.len() == 12,
                acc == hex_number(self@.take(i as int)),
            decreases 12 - i,
        {
            let v = digit_value(self.digit(i));
            proof {
                let t = self@.take(i + 1);
                assert(t.drop_last() =~= self@.take(i as int));
                lemma_hex_number_bound(self@.take(i as int));
                reveal_with_fuel(pow16, 12);
                assert(pow16(i as nat) <= pow16(11));
            }
            acc = acc * 16 + v as u64;
            i = i + 1;
        }
        proof {
            assert(self@.take(12) =~= self@);
        }
        acc
    }

    /// The address in plain notation (for example, `a0b1c2d3e4f5`).
    pub fn to_plain_notation(&self) -> (r: String)
        ensures
            r@ == self@,
    {
        self.value.clone()
    }

    /// The digits in groups of `period - 1`, joined by `sep`.
    fn to_grouped_notation(&self, period: usize, sep: char) -> (r: String)
        requires
            period == 3 || period == 5,
        ensures
            r@ == grouped(self@, period as int, sep),
    {
        proof {
            use_type_invariant(self);
        }
        let total: usize = if period == 3 {
            17
        } else {
            14
        };
        proof {
            if period == 3 {
                assert(grouped(self@, 3, sep).len() == 17);
            } else {
                assert(grouped(self@, 5, sep).len() == 14);
            }
        }
        let mut out = String::new();
        let mut j: usize = 0;
        while j < total
            invariant
                period == 3 || period == 5,
                total == grouped(self@, period as int, sep).len(),
                total == (if period == 3 { 17usize } else { 14usize }),
                j <= total,
                self@.len() == 12,
                out@ =~= grouped(self@, period as int, sep).take(j as int),
            decreases total - j,
        {
            let at_sep = if period == 3 {
                j % 3 == 2
            } else {
                j % 5 == 4
            };
            if at_sep {
                push_char(&mut out, sep);
            } else {
                let k: usize = if period == 3 {
                    j / 3 * 2 + j % 3
                } else {
                    j / 5 * 4 + j % 5
                };
                push_char(&mut out, self.digit(k));
            }
            j = j + 1;
        }
        out
    }

    /// The two fragments of the address: the first 24 bits (an OUI or a
    /// CID) and the last 24 bits, which belong to the interface (for
    /// example, `("a0b1c2", "d3e4f5")`).
    pub fn to_fragments(&self) -> (r: (&str, &str))
        ensures
            r.0@ == self@.subrange(0, 6),
            r.1@ == self@.subrange(6, 12),
    {
        proof {
            use_type_invariant(self);
        }
        let s = self.value.as_str();
        proof {
            let bytes = s.spec_bytes();
            assert(vstd::string::is_ascii(s));
            vstd::utf8::encode_utf8_valid_utf8(s@);
            vstd::utf8::is_char_boundary_iff_not_is_continuation_byte(bytes, 6);
        }
        let (first, second) = s.split_at(6);
        proof {
            let bytes = s.spec_bytes();
            let head = s@.subrange(0, 6);
            let tail = s@.subrange(6, 12);
            vstd::utf8::is_ascii_chars_encode_utf8(head);
            vstd::utf8::is_ascii_chars_encode_utf8(tail);
            assert(vstd::utf8::encode_utf8(head) =~= bytes.subrange(0, 6));
            assert(vstd::utf8::encode_utf8(tail) =~= bytes.subrange(6, 12));
            vstd::utf8::encode_utf8_decode_utf8(head);
            vstd::utf8::encode_utf8_decode_utf8(tail);
            vstd::utf8::encode_utf8_decode_utf8(first@);
            vstd::utf8::encode_utf8_decode_utf8(second@);
        }
        (first, second)
    }

    /// The value of the second digit: the four least significant bits of
    /// the first octet.
    fn first_octet_low_bits(&self) -> (v: u8)
        ensures
            v < 16,
            binary_of(self@)[4] == bit_char(v as nat, 3),
            binary_of(self@)[5] == bit_char(v as nat, 2),
            binary_of(self@)[6] == bit_char(v as nat, 1),
            binary_of(self@)[7] == bit_char(v as nat, 0),
    {
        proof {
            use_type_invariant(self);
        }
        digit_value(self.digit(1))
    }

    /// The kind of the address: `unique`, `local` or `unknown`.
    ///
    /// The two least significant bits of the first octet decide whether it
    /// is an EUI (`00` = `unique`); failing that, the four least
    /// significant bits decide whether it is an ELI (`1010` = `local`).
    pub fn kind(&self) -> (r: String)
        ensures
            r@ == kind_name(self@),
    {
        let v = self.first_octet_low_bits();
        if v % 4 == 0 {
            "unique".to_owned()
        } else if v == 10 {
            "local".to_owned()
        } else {
            "unknown".to_owned()
        }
    }

    /// Whether the address is an EUI, which has an OUI.
    pub fn has_oui(&self) -> (r: bool)
        ensures
            r == is_unique_kind(self@),
    {
        let v = self.first_octet_low_bits();
        v % 4 == 0
    }

    /// Whether the address is an ELI, which has a CID.
    pub fn has_cid(&self) -> (r: bool)
        ensures
            r == (!is_unique_kind(self@) && is_local_kind(self@)),
    {
        let v = self.first_octet_low_bits();
        v % 4 != 0 && v == 10
    }

    /// Whether the address is the broadcast address `ffffffffffff`.
    pub fn is_broadcast(&self) -> (r: bool)
        ensures
            r == (self@ == "ffffffffffff"@),
    {
        proof {
            use_type_invariant(self);
            reveal_strlit("ffffffffffff");
        }
        let mut i: usize = 0;
        while i < 12
            invariant
                i <= 12,
                self@.len() == 12,
                forall|k: int| 0 <= k < i ==> self@[k] == 'f',
            decreases 12 - i,
        {
            if self.digit(i) != 'f' {
                proof {
                    reveal_strlit("ffffffffffff");
                    assert("ffffffffffff"@[i as int] == 'f');
                }
                return false;
            }
            i = i + 1;
        }
        proof {
            assert(self@ =~= "ffffffffffff"@);
        }
        true
    }

    /// Whether the address is a (layer two) multicast address: the least
    /// significant bit of the first octet is `1`.
    pub fn is_multicast(&self) -> (r: bool)
        ensures
            r == is_group_address(self@),
    {
        let v = self.first_octet_low_bits();
        v % 2 == 1
    }

    /// Whether the address is a unicast address: the least significant bit
    /// of the first octet is `0`.
    pub fn is_unicast(&self) -> (r: bool)
        ensures
            r == !is_group_address(self@),
    {
        !self.is_multicast()
    }

    /// Whether the address is a universally administered unicast address:
    /// the second least significant bit of the first octet is `0`.
    pub fn is_uaa(&self) -> (r: bool)
        ensures
            r == (!is_group_address(self@) && !is_local_address(self@)),
    {
        let v = self.first_octet_low_bits();
        self.is_unicast() && v / 2 % 2 == 0
    }

    /// Whether the address is a locally administered unicast address: the
    /// second least significant bit of the first octet is `1`.
    pub fn is_laa(&self) -> (r: bool)
        ensures
            r == (!is_group_address(self@) && is_local_address(self@)),
    {
        let v = self.first_octet_low_bits();
        self.is_unicast() && v / 2 % 2 == 1
    }

    /// The address in hyphen notation (for example, `a0-b1-c2-d3-e4-f5`).
    pub fn to_hyphen_notation(&self) -> (r: String)
        ensures
            r@ == grouped(self@, 3, '-'),
    {
        self.to_grouped_notation(3, '-')
    }

    /// The address in colon notation (for example, `a0:b1:c2:d3:e4:f5`).
    pub fn to_colon_notation(&self) -> (r: String)
        ensures
            r@ == grouped(self@, 3, ':'),
    {
        self.to_grouped_notation(3, ':')
    }

    /// The address in dot notation (for example, `a0b1.c2d3.e4f5`).
    pub fn to_dot_notation(&self) -> (r: String)
        ensures
            r@ == grouped(self@, 5, '.'),
    {
        self.to_grouped_notation(5, '.')
    }
}

} // verus!
