//! Decimal and hexadecimal text: rendering values as the display
//! strings the result surface shows, and parsing the operator's typed
//! input back into values.

use vstd::prelude::*;
use vstd::string::StrSliceExecFns;
use vstd::string::StringExecFns;

use crate::codec::{pow256, lemma_pow256_16, lemma_pow256_monotonic, lemma_pow256_positive};

verus! {

/// 16 to the power `n`: the number of hex strings of length `n`.
pub open spec fn pow16(n: nat) -> nat
    decreases n,
{
    if n == 0 {
        1
    } else {
        16 * pow16((n - 1) as nat)
    }
}

/// The character rendering one decimal digit.
pub open spec fn dec_digit_char(d: int) -> char {
    if d == 0 {
        '0'
    } else if d == 1 {
        '1'
    } else if d == 2 {
        '2'
    } else if d == 3 {
        '3'
    } else if d == 4 {
        '4'
    } else if d == 5 {
        '5'
    } else if d == 6 {
        '6'
    } else if d == 7 {
        '7'
    } else if d == 8 {
        '8'
    } else {
        '9'
    }
}

/// The decimal rendering of `n`: no sign, no leading zero except for
/// zero itself.
pub open spec fn dec_rep(n: nat) -> Seq<char>
    decreases n,
{
    if n < 10 {
        seq![dec_digit_char(n as int)]
    } else {
        dec_rep(n / 10).push(dec_digit_char((n % 10) as int))
    }
}

/// The character rendering one hex digit, upper case.
pub open spec fn hex_digit_char(d: int) -> char {
    if d < 10 {
        dec_digit_char(d)
    } else if d == 10 {
        'A'
    } else if d == 11 {
        'B'
    } else if d == 12 {
        'C'
    } else if d == 13 {
        'D'
    } else if d == 14 {
        'E'
    } else {
        'F'
    }
}

/// The `n` low hex digits of `a`, most significant first, zero padded.
pub open spec fn hex_rep(a: nat, n: nat) -> Seq<char>
    decreases n,
{
    if n == 0 {
        Seq::empty()
    } else {
        hex_rep(a / 16, (n - 1) as nat).push(hex_digit_char((a % 16) as int))
    }
}

/// The numeric value of one character as a decimal digit, or -1.
pub open spec fn dec_char_val(c: char) -> int {
    if c == '0' {
        0
    } else if c == '1' {
        1
    } else if c == '2' {
        2
    } else if c == '3' {
        3
    } else if c == '4' {
        4
    } else if c == '5' {
        5
    } else if c == '6' {
        6
    } else if c == '7' {
        7
    } else if c == '8' {
        8
    } else if c == '9' {
        9
    } else {
        -1
    }
}

/// The numeric value of one character as a hex digit, either case, or
/// -1.
pub open spec fn hex_char_val(c: char) -> int {
    if dec_char_val(c) >= 0 {
        dec_char_val(c)
    } else if c == 'A' || c == 'a' {
        10
    } else if c == 'B' || c == 'b' {
        11
    } else if c == 'C' || c == 'c' {
        12
    } else if c == 'D' || c == 'd' {
        13
    } else if c == 'E' || c == 'e' {
        14
    } else if c == 'F' || c == 'f' {
        15
    } else {
        -1
    }
}

pub open spec fn is_dec_digit(c: char) -> bool {
    dec_char_val(c) >= 0
}

pub open spec fn is_hex_digit(c: char) -> bool {
    hex_char_val(c) >= 0
}

/// A non-empty string of decimal digits.
pub open spec fn valid_dec(s: Seq<char>) -> bool {
    s.len() > 0 && forall|i: int| 0 <= i < s.len() ==> is_dec_digit(#[trigger] s[i])
}

/// A non-empty string of hex digits.
pub open spec fn valid_hex(s: Seq<char>) -> bool {
    s.len() > 0 && forall|i: int| 0 <= i < s.len() ==> is_hex_digit(#[trigger] s[i])
}

/// The value of a decimal digit string.
pub open spec fn dec_value(s: Seq<char>) -> int
    decreases s.len(),
{
    if s.len() == 0 {
        0
    } else {
        10 * dec_value(s.drop_last()) + dec_char_val(s.last())
    }
}

/// The value of a hex digit string.
pub open spec fn hex_value(s: Seq<char>) -> int
    decreases s.len(),
{
    if s.len() == 0 {
        0
    } else {
        16 * hex_value(s.drop_last()) + hex_char_val(s.last())
    }
}

pub proof fn lemma_pow16_positive(n: nat)
    ensures
        pow16(n) >= 1,
    decreases n,
{
    if n > 0 {
        lemma_pow16_positive((n - 1) as nat);
    }
}

pub proof fn lemma_pow16_16()
    ensures
        pow16(16) == u64::MAX + 1,
{
    reveal_with_fuel(pow16, 17);
}

/// The value of a digit string is nonnegative when its digits are
/// valid.
pub proof fn lemma_dec_value_nonneg(s: Seq<char>)
    requires
        forall|i: int| 0 <= i < s.len() ==> is_dec_digit(#[trigger] s[i]),
    ensures
        dec_value(s) >= 0,
    decreases s.len(),
{
    if s.len() > 0 {
        lemma_dec_value_nonneg(s.drop_last());
    }
}

pub proof fn lemma_hex_value_nonneg(s: Seq<char>)
    requires
        forall|i: int| 0 <= i < s.len() ==> is_hex_digit(#[trigger] s[i]),
    ensures
        hex_value(s) >= 0,
    decreases s.len(),
{
    if s.len() > 0 {
        lemma_hex_value_nonneg(s.drop_last());
    }
}

/// A digit string's value is at least the value of any of its
/// prefixes.
pub proof fn lemma_dec_value_prefix(s: Seq<char>, j: int)
    requires
        0 <= j <= s.len(),
        forall|i: int| 0 <= i < s.len() ==> is_dec_digit(#[trigger] s[i]),
    ensures
        dec_value(s) >= dec_value(s.take(j)),
    decreases s.len() - j,
{
    if j < s.len() {
        lemma_dec_value_prefix(s, j + 1);
        assert(s.take(j + 1).drop_last() =~= s.take(j));
        assert(s.take(j + 1).last() == s[j]);
        lemma_dec_value_nonneg(s.take(j));
    } else {
        assert(s.take(j) =~= s);
    }
}

pub proof fn lemma_hex_value_prefix(s: Seq<char>, j: int)
    requires
        0 <= j <= s.len(),
        forall|i: int| 0 <= i < s.len() ==> is_hex_digit(#[trigger] s[i]),
    ensures
        hex_value(s) >= hex_value(s.take(j)),
    decreases s.len() - j,
{
    if j < s.len() {
        lemma_hex_value_prefix(s, j + 1);
        assert(s.take(j + 1).drop_last() =~= s.take(j));
        assert(s.take(j + 1).last() == s[j]);
        lemma_hex_value_nonneg(s.take(j));
    } else {
        assert(s.take(j) =~= s);
    }
}

/// Rendering and evaluating are inverse: the value of the `n`-digit
/// hex rendering of `a` is `a` reduced modulo `pow16(n)`, and the
/// rendering is made of hex digits.
pub proof fn lemma_hex_value_of_rep(a: nat, n: nat)
    ensures
        hex_rep(a, n).len() == n,
        forall|i: int| 0 <= i < n ==> is_hex_digit(#[trigger] hex_rep(a, n)[i]),
        hex_value(hex_rep(a, n)) == a % pow16(n),
    decreases n,
{
    lemma_pow16_positive(n);
    if n == 0 {
        assert(a % 1 == 0) by {
            vstd::arithmetic::div_mod::lemma_mod_self_0(1);
            vstd::arithmetic::div_mod::lemma_small_mod(0, 1);
            assert(a % 1 == 0) by (nonlinear_arith);
        }
    } else {
        let m = (n - 1) as nat;
        lemma_hex_value_of_rep(a / 16, m);
        let rep = hex_rep(a, n);
        assert(rep.drop_last() =~= hex_rep(a / 16, m));
        assert(rep.last() == hex_digit_char((a % 16) as int));
        assert(hex_char_val(hex_digit_char((a % 16) as int)) == a % 16);
        assert(hex_value(rep) == 16 * ((a / 16) % pow16(m)) + a % 16);
        lemma_pow16_positive(m);
        vstd::arithmetic::div_mod::lemma_mod_breakdown(a as int, 16, pow16(m) as int);
        assert(pow16(n) == 16 * pow16(m));
        assert((a as int) % (16 * (pow16(m) as int)) == 16 * (((a as int) / 16) % (pow16(
            m,
        ) as int)) + (a as int) % 16);
    }
}

/// The index of the first colon of `s`, or -1 when it has none.
pub open spec fn first_colon_of(s: Seq<char>) -> int
    decreases s.len(),
{
    if s.len() == 0 {
        -1
    } else if s[0] == ':' {
        0
    } else {
        let r = first_colon_of(s.skip(1));
        if r < 0 {
            -1
        } else {
            r + 1
        }
    }
}

/// A colon at `i` with none before it is the first colon.
pub proof fn lemma_first_colon_at(s: Seq<char>, i: int)
    requires
        0 <= i < s.len(),
        s[i] == ':',
        forall|k: int| 0 <= k < i ==> s[k] != ':',
    ensures
        first_colon_of(s) == i,
    decreases i,
{
    if i > 0 {
        let tail = s.skip(1);
        assert(tail[i - 1] == s[i]);
        assert forall|k: int| 0 <= k < i - 1 implies tail[k] != ':' by {
            assert(tail[k] == s[k + 1]);
        }
        lemma_first_colon_at(tail, i - 1);
    }
}

/// A string without a colon has no first colon.
pub proof fn lemma_first_colon_none(s: Seq<char>)
    requires
        forall|k: int| 0 <= k < s.len() ==> s[k] != ':',
    ensures
        first_colon_of(s) == -1,
    decreases s.len(),
{
    if s.len() > 0 {
        let tail = s.skip(1);
        assert forall|k: int| 0 <= k < tail.len() implies tail[k] != ':' by {
            assert(tail[k] == s[k + 1]);
        }
        lemma_first_colon_none(tail);
    }
}

/// Renders one decimal digit.
fn dec_digit_str(d: u128) -> (r: &'static str)
    requires
        d < 10,
    ensures
        r@ == seq![dec_digit_char(d as int)],
{
    let r: &'static str = if d == 0 {
        "0"
    } else if d == 1 {
        "1"
    } else if d == 2 {
        "2"
    } else if d == 3 {
        "3"
    } else if d == 4 {
        "4"
    } else if d == 5 {
        "5"
    } else if d == 6 {
        "6"
    } else if d == 7 {
        "7"
    } else if d == 8 {
        "8"
    } else {
        "9"
    };
    proof {
        reveal_strlit("0");
        reveal_strlit("1");
        reveal_strlit("2");
        reveal_strlit("3");
        reveal_strlit("4");
        reveal_strlit("5");
        reveal_strlit("6");
        reveal_strlit("7");
        reveal_strlit("8");
        reveal_strlit("9");
        assert(r@ =~= seq![dec_digit_char(d as int)]);
    }
    r
}

/// Renders one hex digit, upper case.
fn hex_digit_str(d: u64) -> (r: &'static str)
    requires
        d < 16,
    ensures
        r@ == seq![hex_digit_char(d as int)],
{
    if d < 10 {
        dec_digit_str(d as u128)
    } else {
        let r: &'static str = if d == 10 {
            "A"
        } else if d == 11 {
            "B"
        } else if d == 12 {
            "C"
        } else if d == 13 {
            "D"
        } else if d == 14 {
            "E"
        } else {
            "F"
        };
        proof {
            reveal_strlit("A");
            reveal_strlit("B");
            reveal_strlit("C");
            reveal_strlit("D");
            reveal_strlit("E");
            reveal_strlit("F");
            assert(r@ =~= seq![hex_digit_char(d as int)]);
        }
        r
    }
}

/// Appends the decimal rendering of `n` to `out`.
fn push_dec(n: u128, out: &mut String)
    ensures
        final(out)@ == old(out)@ + dec_rep(n as nat),
    decreases n,
{
    let ghost pre = out@;
    if n >= 10 {
        push_dec(n / 10, out);
    }
    out.append(dec_digit_str(n % 10));
    proof {
        if n >= 10 {
            assert(dec_rep(n as nat) == dec_rep((n as nat) / 10).push(
                dec_digit_char(((n as nat) % 10) as int),
            ));
            assert(final(out)@ =~= pre + dec_rep(n as nat));
        } else {
            assert(final(out)@ =~= pre + dec_rep(n as nat));
        }
    }
}

/// The decimal rendering of an unsigned value.
pub fn unsigned_label(n: u128) -> (r: String)
    ensures
        r@ == dec_rep(n as nat),
{
    let mut out = String::new();
    push_dec(n, &mut out);
    proof {
        assert(out@ =~= dec_rep(n as nat));
    }
    out
}

/// Appends the `n` low hex digits of `a`, most significant first.
fn push_hex(a: u64, n: usize, out: &mut String)
    ensures
        final(out)@ == old(out)@ + hex_rep(a as nat, n as nat),
    decreases n,
{
    let ghost pre = out@;
    if n == 0 {
        proof {
            assert(pre + hex_rep(a as nat, 0) =~= pre);
        }
        return ;
    }
    push_hex(a / 16, n - 1, out);
    out.append(hex_digit_str(a % 16));
    proof {
        assert(final(out)@ =~= pre + hex_rep(a as nat, n as nat));
    }
}

/// The sixteen-digit, upper-case, zero-padded hex rendering of an
/// address.
pub fn hex16_label(a: u64) -> (r: String)
    ensures
        r@ == hex_rep(a as nat, 16),
{
    let mut out = String::new();
    push_hex(a, 16, &mut out);
    proof {
        assert(out@ =~= hex_rep(a as nat, 16));
    }
    out
}

/// `pow256` as a machine value, below the width where it overflows.
pub fn pow256_u128(w: usize) -> (r: u128)
    requires
        w <= 15,
    ensures
        r == pow256(w as nat),
{
    let mut r: u128 = 1;
    let mut k: usize = 0;
    while k < w
        invariant
            k <= w <= 15,
            r == pow256(k as nat),
        decreases w - k,
    {
        proof {
            lemma_pow256_monotonic(k as nat + 1, 15);
            reveal_with_fuel(pow256, 16);
        }
        r = r * 256;
        k = k + 1;
    }
    r
}

/// The two's-complement bit pattern of width `w` denoting `-v`.
pub open spec fn signed_bits(v: nat, w: nat) -> nat {
    if v == 0 {
        0
    } else {
        (pow256(w) - v) as nat
    }
}

/// The display rendering of the bit pattern `bits` read as a signed
/// value of width `w`: the plain decimal value below the sign
/// threshold, a minus sign and the two's-complement magnitude above
/// it.
pub open spec fn signed_label_seq(bits: nat, w: nat) -> Seq<char> {
    if 2 * bits < pow256(w) {
        dec_rep(bits)
    } else {
        seq!['-'] + dec_rep((pow256(w) - bits) as nat)
    }
}

/// Renders the bit pattern of a signed value of width `w`.
pub fn signed_label(bits: u128, w: usize) -> (r: String)
    requires
        1 <= w <= 16,
        bits < pow256(w as nat),
    ensures
        r@ == signed_label_seq(bits as nat, w as nat),
{
    let half: u128 = if w == 16 {
        proof {
            lemma_pow256_16();
        }
        0x80000000000000000000000000000000
    } else {
        let p = pow256_u128(w);
        proof {
            assert(pow256(w as nat) == 256 * pow256((w - 1) as nat));
            lemma_pow256_positive((w - 1) as nat);
        }
        p / 2
    };
    proof {
        assert(2 * (half as int) == pow256(w as nat));
    }
    if bits < half {
        unsigned_label(bits)
    } else {
        let magnitude: u128 = if w == 16 {
            proof {
                lemma_pow256_16();
            }
            (u128::MAX - bits) + 1
        } else {
            let p = pow256_u128(w);
            p - bits
        };
        let mut out = String::from_str("-");
        push_dec(magnitude, &mut out);
        proof {
            reveal_strlit("-");
            assert("-"@ =~= seq!['-']);
            assert(out@ =~= signed_label_seq(bits as nat, w as nat));
        }
        out
    }
}

/// Evaluates one character as a hex digit.
fn hex_digit_of_char(c: char) -> (r: Option<u64>)
    ensures
        match r {
            Some(d) => d == hex_char_val(c) && d < 16,
            None => !is_hex_digit(c),
        },
{
    if c == '0' {
        Some(0)
    } else if c == '1' {
        Some(1)
    } else if c == '2' {
        Some(2)
    } else if c == '3' {
        Some(3)
    } else if c == '4' {
        Some(4)
    } else if c == '5' {
        Some(5)
    } else if c == '6' {
        Some(6)
    } else if c == '7' {
        Some(7)
    } else if c == '8' {
        Some(8)
    } else if c == '9' {
        Some(9)
    } else if c == 'A' || c == 'a' {
        Some(10)
    } else if c == 'B' || c == 'b' {
        Some(11)
    } else if c == 'C' || c == 'c' {
        Some(12)
    } else if c == 'D' || c == 'd' {
        Some(13)
    } else if c == 'E' || c == 'e' {
        Some(14)
    } else if c == 'F' || c == 'f' {
        Some(15)
    } else {
        None
    }
}

/// Evaluates one character as a decimal digit.
fn dec_digit_of_char(c: char) -> (r: Option<u128>)
    ensures
        match r {
            Some(d) => d == dec_char_val(c) && d < 10,
            None => !is_dec_digit(c),
        },
{
    if c == '0' {
        Some(0)
    } else if c == '1' {
        Some(1)
    } else if c == '2' {
        Some(2)
    } else if c == '3' {
        Some(3)
    } else if c == '4' {
        Some(4)
    } else if c == '5' {
        Some(5)
    } else if c == '6' {
        Some(6)
    } else if c == '7' {
        Some(7)
    } else if c == '8' {
        Some(8)
    } else if c == '9' {
        Some(9)
    } else {
        None
    }
}

/// What parsing a hex string yields: its value, when it is a
/// non-empty string of hex digits (either case) whose value fits an
/// address.
pub open spec fn spec_parse_hex(s: Seq<char>) -> Option<u64> {
    if valid_hex(s) && hex_value(s) <= u64::MAX {
        Some(hex_value(s) as u64)
    } else {
        None
    }
}

/// Parses a hex string into an address.
pub fn parse_hex(s: &str) -> (r: Option<u64>)
    ensures
        r == spec_parse_hex(s@),
{
    let n = s.unicode_len();
    if n == 0 {
        return None;
    }
    let mut acc: u64 = 0;
    let mut i: usize = 0;
    while i < n
        invariant
            i <= n,
            n == s@.len(),
            forall|k: int| 0 <= k < i ==> is_hex_digit(#[trigger] s@[k]),
            acc == hex_value(s@.take(i as int)),
        decreases n - i,
    {
        let c = s.get_char(i);
        let d = match hex_digit_of_char(c) {
            Some(d) => d,
            None => {
                return None;
            },
        };
        proof {
            assert(s@.take(i + 1).drop_last() =~= s@.take(i as int));
            assert(s@.take(i + 1).last() == s@[i as int]);
        }
        if acc > (u64::MAX - d) / 16 {
            proof {
                assert(16 * (acc as int) + d > u64::MAX) by {
                    assert(acc as int > (u64::MAX - d) / 16);
                    vstd::arithmetic::div_mod::lemma_fundamental_div_mod(
                        (u64::MAX - d) as int,
                        16,
                    );
                }
                if valid_hex(s@) {
                    lemma_hex_value_prefix(s@, i + 1);
                }
            }
            return None;
        }
        acc = acc * 16 + d;
        i = i + 1;
    }
    proof {
        assert(s@.take(n as int) =~= s@);
    }
    Some(acc)
}

/// Parses the decimal digits of `s` from position `from` to its end.
/// Yields their value when they are non-empty, all digits, and fit
/// the widest value type.
pub open spec fn spec_parse_digits(s: Seq<char>) -> Option<u128> {
    if valid_dec(s) && dec_value(s) <= u128::MAX {
        Some(dec_value(s) as u128)
    } else {
        None
    }
}

/// Parses a run of decimal digits.
pub fn parse_digits(s: &str, from: usize) -> (r: Option<u128>)
    requires
        from <= s@.len(),
    ensures
        r == spec_parse_digits(s@.skip(from as int)),
{
    let n = s.unicode_len();
    if from == n {
        return None;
    }
    let ghost body = s@.skip(from as int);
    let mut acc: u128 = 0;
    let mut i: usize = from;
    while i < n
        invariant
            from <= i <= n,
            n == s@.len(),
            body == s@.skip(from as int),
            forall|k: int| 0 <= k < i - from ==> is_dec_digit(#[trigger] body[k]),
            acc == dec_value(body.take(i - from)),
        decreases n - i,
    {
        let c = s.get_char(i);
        let d = match dec_digit_of_char(c) {
            Some(d) => d,
            None => {
                proof {
                    assert(body[i - from] == s@[i as int]);
                    assert(!is_dec_digit(body[i - from]));
                }
                return None;
            },
        };
        proof {
            assert(body[i - from] == s@[i as int]);
            assert(body.take(i - from + 1).drop_last() =~= body.take(i - from));
            assert(body.take(i - from + 1).last() == body[i - from]);
        }
        if acc > (u128::MAX - d) / 10 {
            proof {
                assert(10 * (acc as int) + d > u128::MAX) by {
                    assert(acc as int > (u128::MAX - d) / 10);
                    vstd::arithmetic::div_mod::lemma_fundamental_div_mod(
                        (u128::MAX - d) as int,
                        10,
                    );
                }
                if valid_dec(body) {
                    lemma_dec_value_prefix(body, i - from + 1);
                }
            }
            return None;
        }
        acc = acc * 10 + d;
        i = i + 1;
    }
    proof {
        assert(body.take(n - from) =~= body);
    }
    Some(acc)
}

} // verus!
