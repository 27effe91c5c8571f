//! The display surface and the edit round trip: every row renders an
//! `address_label` of sixteen upper-case hex digits, a colon and a
//! type suffix, plus decimal value labels; the label the operator
//! selects is parsed back into the exact address and type it was made
//! from.

use vstd::prelude::*;
use vstd::string::StrSliceExecFns;
use vstd::string::StringExecFns;

use crate::codec::{encode_le, le_bytes, pow256, lemma_pow256_16, lemma_pow256_positive};
use crate::rows::Row;
use crate::tag::Datatype;
use crate::text::{
    dec_rep, dec_value, first_colon_of, hex_rep, hex_value, hex16_label, is_hex_digit,
    lemma_hex_value_of_rep, lemma_pow16_16, parse_digits, parse_hex, pow16, pow256_u128,
    signed_bits, signed_label, signed_label_seq, spec_parse_hex, valid_dec, valid_hex,
};

verus! {

/// The display suffix of a value type.
pub open spec fn suffix_seq(t: Datatype) -> Seq<char> {
    match t {
        Datatype::B1 => "u8"@,
        Datatype::B1S => "i8"@,
        Datatype::B2 => "u16"@,
        Datatype::B2S => "i16"@,
        Datatype::B4 => "u32"@,
        Datatype::B4S => "i32"@,
        Datatype::B8 => "u64"@,
        Datatype::B8S => "i64"@,
        Datatype::B16 => "u128"@,
        Datatype::B16S => "i128"@,
        Datatype::F => "f32"@,
        Datatype::D => "f64"@,
    }
}

impl Datatype {
    /// The display suffix of this type.
    pub fn suffix(self) -> (r: &'static str)
        ensures
            r@ == suffix_seq(self),
    {
        match self {
            Datatype::B1 => "u8",
            Datatype::B1S => "i8",
            Datatype::B2 => "u16",
            Datatype::B2S => "i16",
            Datatype::B4 => "u32",
            Datatype::B4S => "i32",
            Datatype::B8 => "u64",
            Datatype::B8S => "i64",
            Datatype::B16 => "u128",
            Datatype::B16S => "i128",
            Datatype::F => "f32",
            Datatype::D => "f64",
        }
    }
}

/// The type a display suffix names, if any.
pub open spec fn spec_from_suffix(s: Seq<char>) -> Option<Datatype> {
    if s == "u8"@ {
        Some(Datatype::B1)
    } else if s == "i8"@ {
        Some(Datatype::B1S)
    } else if s == "u16"@ {
        Some(Datatype::B2)
    } else if s == "i16"@ {
        Some(Datatype::B2S)
    } else if s == "u32"@ {
        Some(Datatype::B4)
    } else if s == "i32"@ {
        Some(Datatype::B4S)
    } else if s == "u64"@ {
        Some(Datatype::B8)
    } else if s == "i64"@ {
        Some(Datatype::B8S)
    } else if s == "u128"@ {
        Some(Datatype::B16)
    } else if s == "i128"@ {
        Some(Datatype::B16S)
    } else if s == "f32"@ {
        Some(Datatype::F)
    } else if s == "f64"@ {
        Some(Datatype::D)
    } else {
        None
    }
}

/// Character-for-character string equality.
fn str_eq(a: &str, b: &str) -> (r: bool)
    ensures
        r == (a@ == b@),
{
    let n = a.unicode_len();
    if n != b.unicode_len() {
        return false;
    }
    let mut i: usize = 0;
    while i < n
        invariant
            i <= n,
            n == a@.len() == b@.len(),
            forall|k: int| 0 <= k < i ==> a@[k] == b@[k],
        decreases n - i,
    {
        if a.get_char(i) != b.get_char(i) {
            return false;
        }
        i = i + 1;
    }
    proof {
        assert(a@ =~= b@);
    }
    true
}

/// Looks a display suffix up as a value type.
pub fn from_suffix(s: &str) -> (r: Option<Datatype>)
    ensures
        r == spec_from_suffix(s@),
{
    if str_eq(s, "u8") {
        Some(Datatype::B1)
    } else if str_eq(s, "i8") {
        Some(Datatype::B1S)
    } else if str_eq(s, "u16") {
        Some(Datatype::B2)
    } else if str_eq(s, "i16") {
        Some(Datatype::B2S)
    } else if str_eq(s, "u32") {
        Some(Datatype::B4)
    } else if str_eq(s, "i32") {
        Some(Datatype::B4S)
    } else if str_eq(s, "u64") {
        Some(Datatype::B8)
    } else if str_eq(s, "i64") {
        Some(Datatype::B8S)
    } else if str_eq(s, "u128") {
        Some(Datatype::B16)
    } else if str_eq(s, "i128") {
        Some(Datatype::B16S)
    } else if str_eq(s, "f32") {
        Some(Datatype::F)
    } else if str_eq(s, "f64") {
        Some(Datatype::D)
    } else {
        None
    }
}

/// Looking a type's own suffix up yields the type.
pub proof fn lemma_from_suffix_of_suffix(t: Datatype)
    ensures
        spec_from_suffix(suffix_seq(t)) == Some(t),
{
    reveal_strlit("u8");
    reveal_strlit("i8");
    reveal_strlit("u16");
    reveal_strlit("i16");
    reveal_strlit("u32");
    reveal_strlit("i32");
    reveal_strlit("u64");
    reveal_strlit("i64");
    reveal_strlit("u128");
    reveal_strlit("i128");
    reveal_strlit("f32");
    reveal_strlit("f64");
    assert("u8"@[0] == 'u' && "u8"@[1] == '8');
    assert("i8"@[0] == 'i' && "i8"@[1] == '8');
    assert("u16"@[0] == 'u' && "u16"@[1] == '1');
    assert("i16"@[0] == 'i' && "i16"@[1] == '1');
    assert("u32"@[0] == 'u' && "u32"@[1] == '3');
    assert("i32"@[0] == 'i' && "i32"@[1] == '3');
    assert("u64"@[0] == 'u' && "u64"@[1] == '6');
    assert("i64"@[0] == 'i' && "i64"@[1] == '6');
    assert("u128"@[0] == 'u' && "u128"@[1] == '1');
    assert("i128"@[0] == 'i' && "i128"@[1] == '1');
    assert("f32"@[0] == 'f' && "f32"@[1] == '3');
    assert("f64"@[0] == 'f' && "f64"@[1] == '6');
    assert("u128"@[2] == '2' && "u16"@[2] == '6' && "i128"@[2] == '2' && "i16"@[2] == '6');
    assert("u32"@[2] == '2' && "i32"@[2] == '2' && "u64"@[2] == '4' && "i64"@[2] == '4');
    match t {
        Datatype::B1 => {
            assert(spec_from_suffix("u8"@) == Some(Datatype::B1));
        },
        Datatype::B1S => {
            assert(spec_from_suffix("i8"@) == Some(Datatype::B1S));
        },
        Datatype::B2 => {
            assert(spec_from_suffix("u16"@) == Some(Datatype::B2));
        },
        Datatype::B2S => {
            assert(spec_from_suffix("i16"@) == Some(Datatype::B2S));
        },
        Datatype::B4 => {
            assert(spec_from_suffix("u32"@) == Some(Datatype::B4));
        },
        Datatype::B4S => {
            assert(spec_from_suffix("i32"@) == Some(Datatype::B4S));
        },
        Datatype::B8 => {
            assert(spec_from_suffix("u64"@) == Some(Datatype::B8));
        },
        Datatype::B8S => {
            assert(spec_from_suffix("i64"@) == Some(Datatype::B8S));
        },
        Datatype::B16 => {
            assert(spec_from_suffix("u128"@) == Some(Datatype::B16));
        },
        Datatype::B16S => {
            assert(spec_from_suffix("i128"@) == Some(Datatype::B16S));
        },
        Datatype::F => {
            assert(spec_from_suffix("f32"@) == Some(Datatype::F));
        },
        Datatype::D => {
            assert(spec_from_suffix("f64"@) == Some(Datatype::D));
        },
    }
}

/// The `address_label` of an entry: sixteen upper-case hex digits,
/// zero padded, then a colon, then the type suffix.
pub open spec fn address_label_seq(a: u64, t: Datatype) -> Seq<char> {
    hex_rep(a as nat, 16) + seq![':'] + suffix_seq(t)
}

/// Renders the `address_label` of an address and type.
pub fn address_label(a: u64, t: Datatype) -> (r: String)
    ensures
        r@ == address_label_seq(a, t),
{
    let mut out = hex16_label(a);
    out.append(":");
    out.append(t.suffix());
    proof {
        reveal_strlit(":");
        assert(":"@ =~= seq![':']);
        assert(out@ =~= address_label_seq(a, t));
    }
    out
}

/// What parsing an `address_label` yields: the address before the
/// first colon and the type its suffix names, when both parts are
/// well-formed.
pub open spec fn spec_parse_address_label(s: Seq<char>) -> Option<(u64, Datatype)> {
    let i = first_colon_of(s);
    if i < 0 {
        None
    } else {
        match spec_parse_hex(s.take(i)) {
            Some(a) => match spec_from_suffix(s.skip(i + 1)) {
                Some(t) => Some((a, t)),
                None => None,
            },
            None => None,
        }
    }
}

/// Splits an `address_label` at its first colon and parses the hex
/// address and the type suffix back out.
pub fn parse_address_label(s: &str) -> (r: Option<(u64, Datatype)>)
    ensures
        r == spec_parse_address_label(s@),
{
    let n = s.unicode_len();
    let mut j: usize = 0;
    while j < n && s.get_char(j) != ':'
        invariant
            j <= n,
            n == s@.len(),
            forall|k: int| 0 <= k < j ==> s@[k] != ':',
        decreases n - j,
    {
        j = j + 1;
    }
    if j == n {
        proof {
            crate::text::lemma_first_colon_none(s@);
        }
        return None;
    }
    proof {
        crate::text::lemma_first_colon_at(s@, j as int);
    }
    let hex_part = s.substring_char(0, j);
    let addr = match parse_hex(hex_part) {
        Some(a) => a,
        None => {
            return None;
        },
    };
    let suffix_part = s.substring_char(j + 1, n);
    match from_suffix(suffix_part) {
        Some(t) => Some((addr, t)),
        None => None,
    }
}

/// Parsing the label of any address and type yields them back exactly.
pub proof fn lemma_address_label_roundtrip(a: u64, t: Datatype)
    ensures
        spec_parse_address_label(address_label_seq(a, t)) == Some((a, t)),
{
    let label = address_label_seq(a, t);
    let rep = hex_rep(a as nat, 16);
    lemma_hex_value_of_rep(a as nat, 16);
    assert(label[16] == ':');
    assert forall|k: int| 0 <= k < 16 implies label[k] != ':' by {
        assert(label[k] == rep[k]);
        assert(is_hex_digit(rep[k]));
    }
    crate::text::lemma_first_colon_at(label, 16);
    assert(label.take(16) =~= rep);
    assert(hex_value(rep) == (a as nat) % pow16(16));
    assert((a as nat) % pow16(16) == a) by {
        lemma_pow16_16();
        vstd::arithmetic::div_mod::lemma_small_mod(a as nat, pow16(16));
    }
    assert(valid_hex(rep));
    assert(spec_parse_hex(label.take(16)) == Some(a));
    assert(label.skip(17) =~= suffix_seq(t));
    lemma_from_suffix_of_suffix(t);
}

/// The decimal label of a value of type `t` whose bit pattern is
/// `bits`: the signed reading for signed types, the plain value for
/// unsigned ones, nothing for the float types (their rendering is
/// outside the core).
pub open spec fn value_label_seq(t: Datatype, bits: nat) -> Option<Seq<char>> {
    if t.spec_is_float() {
        None
    } else if t.spec_is_signed() {
        Some(signed_label_seq(bits, t.spec_width() as nat))
    } else {
        Some(dec_rep(bits))
    }
}

/// Renders the decimal label of a value of type `t`.
pub fn value_label(t: Datatype, bits: u128) -> (r: Option<String>)
    requires
        bits < pow256(t.spec_width() as nat),
    ensures
        match r {
            Some(v) => value_label_seq(t, bits as nat) == Some(v@),
            None => value_label_seq(t, bits as nat) is None,
        },
{
    if t.is_float() {
        None
    } else if t.is_signed() {
        Some(signed_label(bits, t.width()))
    } else {
        Some(crate::text::unsigned_label(bits))
    }
}

impl Row {
    /// The `address_label` identifying this row.
    pub fn address_label(&self) -> (r: String)
        ensures
            r@ == address_label_seq(self.address, self.tag),
    {
        address_label(self.address, self.tag)
    }

    /// The decimal label of this row's current value; nothing for the
    /// float types.
    pub fn current_label(&self) -> (r: Option<String>)
        requires
            self.value < pow256(self.tag.spec_width() as nat),
        ensures
            match r {
                Some(v) => value_label_seq(self.tag, self.value as nat) == Some(v@),
                None => value_label_seq(self.tag, self.value as nat) is None,
            },
    {
        value_label(self.tag, self.value)
    }

    /// The decimal label of this row's previous value; nothing for the
    /// float types.
    pub fn previous_label(&self) -> (r: Option<String>)
        requires
            self.old_value < pow256(self.tag.spec_width() as nat),
        ensures
            match r {
                Some(v) => value_label_seq(self.tag, self.old_value as nat) == Some(v@),
                None => value_label_seq(self.tag, self.old_value as nat) is None,
            },
    {
        value_label(self.tag, self.old_value)
    }
}

/// `s` with one leading plus sign removed.
pub open spec fn strip_plus(s: Seq<char>) -> Seq<char> {
    if s.len() > 0 && s[0] == '+' {
        s.skip(1)
    } else {
        s
    }
}

/// What parsing an operand of an integer type yields: the little-
/// endian bytes of its value, when the input is an optionally signed
/// decimal numeral in the type's range.
pub open spec fn spec_parse_typed(s: Seq<char>, t: Datatype) -> Option<Seq<u8>> {
    let w = t.spec_width() as nat;
    if t.spec_is_float() {
        None
    } else if t.spec_is_signed() && s.len() > 0 && s[0] == '-' {
        let body = s.skip(1);
        if valid_dec(body) && 2 * dec_value(body) <= pow256(w) {
            Some(le_bytes(signed_bits(dec_value(body) as nat, w), w))
        } else {
            None
        }
    } else if t.spec_is_signed() {
        let body = strip_plus(s);
        if valid_dec(body) && 2 * dec_value(body) < pow256(w) {
            Some(le_bytes(dec_value(body) as nat, w))
        } else {
            None
        }
    } else {
        let body = strip_plus(s);
        if valid_dec(body) && dec_value(body) < pow256(w) {
            Some(le_bytes(dec_value(body) as nat, w))
        } else {
            None
        }
    }
}

/// Parses the operator's decimal input as a value of the integer type
/// `t` and encodes it in the type's width. An optional leading plus
/// is accepted; a leading minus only for signed types; the value must
/// lie in the type's range.
pub fn parse_typed(s: &str, t: Datatype) -> (r: Option<Vec<u8>>)
    requires
        !t.spec_is_float(),
    ensures
        match r {
            Some(v) => spec_parse_typed(s@, t) == Some(v@),
            None => spec_parse_typed(s@, t) is None,
        },
{
    let n = s.unicode_len();
    let w = t.width();
    let mut neg = false;
    let mut start: usize = 0;
    if n > 0 {
        let c0 = s.get_char(0);
        if c0 == '-' && t.is_signed() {
            neg = true;
            start = 1;
        } else if c0 == '+' {
            start = 1;
        }
    }
    let ghost body = if neg {
        s@.skip(1)
    } else {
        strip_plus(s@)
    };
    proof {
        assert(body == s@.skip(start as int));
    }
    let v = match parse_digits(s, start) {
        Some(v) => v,
        None => {
            proof {
                if valid_dec(body) {
                    crate::text::lemma_dec_value_nonneg(body);
                    lemma_pow256_16();
                    crate::codec::lemma_pow256_monotonic(w as nat, 16);
                }
            }
            return None;
        },
    };
    proof {
        crate::text::lemma_dec_value_nonneg(body);
    }
    let half: u128 = if w == 16 {
        proof {
            lemma_pow256_16();
        }
        0x80000000000000000000000000000000
    } else {
        let p = pow256_u128(w);
        proof {
            assert(pow256(w as nat) == 256 * pow256((w - 1) as nat));
            lemma_pow256_positive((w - 1) as nat);
        }
        p / 2
    };
    proof {
        assert(2 * (half as int) == pow256(w as nat));
    }
    if t.is_signed() {
        if neg {
            if v > half {
                return None;
            }
            let bits: u128 = if v == 0 {
                0
            } else if w == 16 {
                proof {
                    lemma_pow256_16();
                }
                (u128::MAX - v) + 1
            } else {
                let p = pow256_u128(w);
                p - v
            };
            proof {
                assert(bits == signed_bits(v as nat, w as nat));
            }
            Some(encode_le(bits, w))
        } else {
            if v >= half {
                return None;
            }
            Some(encode_le(v, w))
        }
    } else {
        if w < 16 {
            let p = pow256_u128(w);
            if v >= p {
                return None;
            }
        } else {
            proof {
                lemma_pow256_16();
            }
        }
        Some(encode_le(v, w))
    }
}

/// The unsigned type of a given byte width.
pub fn unsigned_tag_of_width(w: usize) -> (t: Datatype)
    requires
        w == 1 || w == 2 || w == 4 || w == 8 || w == 16,
    ensures
        t.spec_width() == w,
        !t.spec_is_signed(),
        !t.spec_is_float(),
{
    if w == 1 {
        Datatype::B1
    } else if w == 2 {
        Datatype::B2
    } else if w == 4 {
        Datatype::B4
    } else if w == 8 {
        Datatype::B8
    } else {
        Datatype::B16
    }
}

/// The signed type of a given byte width.
pub fn signed_tag_of_width(w: usize) -> (t: Datatype)
    requires
        w == 1 || w == 2 || w == 4 || w == 8 || w == 16,
    ensures
        t.spec_width() == w,
        t.spec_is_signed(),
        !t.spec_is_float(),
{
    if w == 1 {
        Datatype::B1S
    } else if w == 2 {
        Datatype::B2S
    } else if w == 4 {
        Datatype::B4S
    } else if w == 8 {
        Datatype::B8S
    } else {
        Datatype::B16S
    }
}

/// Parses the operator's input at a chosen byte width, as the
/// unsigned type of that width first and its signed counterpart
/// second, yielding the type that accepted and the encoded bytes.
pub fn parse_sized(s: &str, w: usize) -> (r: Option<(Datatype, Vec<u8>)>)
    requires
        w == 1 || w == 2 || w == 4 || w == 8 || w == 16,
    ensures
        match r {
            Some(p) => {
                ||| (!p.0.spec_is_signed() && p.0.spec_width() == w && spec_parse_typed(s@, p.0)
                    == Some(p.1@))
                ||| (p.0.spec_is_signed() && p.0.spec_width() == w && spec_parse_typed(
                    s@,
                    unsigned_tag_of_width_spec(w),
                ) is None && spec_parse_typed(s@, p.0) == Some(p.1@))
            },
            None => spec_parse_typed(s@, unsigned_tag_of_width_spec(w)) is None
                && spec_parse_typed(s@, signed_tag_of_width_spec(w)) is None,
        },
{
    let ut = unsigned_tag_of_width(w);
    proof {
        assert(ut == unsigned_tag_of_width_spec(w));
    }
    match parse_typed(s, ut) {
        Some(v) => Some((ut, v)),
        None => {
            let st = signed_tag_of_width(w);
            proof {
                assert(st == signed_tag_of_width_spec(w));
            }
            match parse_typed(s, st) {
                Some(v) => Some((st, v)),
                None => None,
            }
        },
    }
}

/// The unsigned type of a given byte width.
pub open spec fn unsigned_tag_of_width_spec(w: usize) -> Datatype {
    if w == 1 {
        Datatype::B1
    } else if w == 2 {
        Datatype::B2
    } else if w == 4 {
        Datatype::B4
    } else if w == 8 {
        Datatype::B8
    } else {
        Datatype::B16
    }
}

/// The signed type of a given byte width.
pub open spec fn signed_tag_of_width_spec(w: usize) -> Datatype {
    if w == 1 {
        Datatype::B1S
    } else if w == 2 {
        Datatype::B2S
    } else if w == 4 {
        Datatype::B4S
    } else if w == 8 {
        Datatype::B8S
    } else {
        Datatype::B16S
    }
}

} // verus!
