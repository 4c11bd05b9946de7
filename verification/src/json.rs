//! The JSON form of a configuration: a single flat object whose members map
//! parameter names to scalar values.
//!
//! The serializer emits the canonical form: no spaces, keys unescaped, and
//! integers in minimal decimal. The parser accepts exactly that grammar plus
//! whitespace around structural tokens; a member value may also be a quoted
//! string (printable ASCII without quote or backslash; its characters are
//! not retained, since no parameter schema has string values) or `null` —
//! both parse, and the configuration check later rejects them with
//! `InvalidValue`, as a wrong-typed member is a value error, not a syntax
//! error. Arrays, nested objects, string escapes and non-integer numbers
//! are outside this deliberately restricted carrier grammar and fail as
//! `InvalidJson`. Both directions are written against one specification:
//! `ser_obj` for writing and `parse_obj_spec` for reading, and the
//! executable functions return exactly what those specifications say.

use vstd::prelude::*;
use crate::errors::CodecError;

verus! {

/// A member value: the two schema scalars, or a marker for a well-formed
/// value of the carrier grammar that no parameter schema accepts (a string,
/// whose characters are not retained, or a JSON null).
#[derive(Clone, Copy, Debug, PartialEq, Eq, Structural)]
pub enum JsonValue {
    Int(i64),
    Bool(bool),
    Str,
    Null,
}

/// The members of a parsed object, as the specification sees them.
pub open spec fn members_view(ms: Seq<(Vec<u8>, JsonValue)>) -> Seq<(Seq<u8>, JsonValue)> {
    ms.map_values(|p: (Vec<u8>, JsonValue)| (p.0@, p.1))
}

/// Whitespace accepted around structural tokens.
pub open spec fn is_ws(b: u8) -> bool {
    b == 32 || b == 9 || b == 10 || b == 13
}

/// A byte allowed inside an object key: printable, no space, no quote, no
/// backslash.
pub open spec fn is_key_byte(b: u8) -> bool {
    33 <= b <= 126 && b != 34 && b != 92
}

/// A byte allowed inside a string value: printable ASCII without the quote
/// or the backslash.
pub open spec fn is_string_byte(b: u8) -> bool {
    32 <= b <= 126 && b != 34 && b != 92
}

/// End of the string-byte run starting at `i`.
pub open spec fn string_run_end(s: Seq<u8>, i: int) -> int
    decreases s.len() - i,
{
    if 0 <= i < s.len() && is_string_byte(s[i]) {
        string_run_end(s, i + 1)
    } else {
        i
    }
}

/// A decimal digit.
pub open spec fn is_digit(b: u8) -> bool {
    48 <= b <= 57
}

/// Minimal decimal digits of a natural number.
pub open spec fn dec_digits(n: nat) -> Seq<u8>
    decreases n,
{
    if n < 10 {
        seq![(48 + n) as u8]
    } else {
        dec_digits(n / 10).push((48 + n % 10) as u8)
    }
}

/// Canonical bytes of an integer value.
pub open spec fn ser_int(v: int) -> Seq<u8> {
    if v < 0 {
        seq![45u8] + dec_digits((-v) as nat)
    } else {
        dec_digits(v as nat)
    }
}

/// Canonical bytes of a scalar value.
pub open spec fn ser_value(v: JsonValue) -> Seq<u8> {
    match v {
        JsonValue::Int(i) => ser_int(i as int),
        JsonValue::Bool(b) => if b {
            seq![116u8, 114u8, 117u8, 101u8]
        } else {
            seq![102u8, 97u8, 108u8, 115u8, 101u8]
        },
        JsonValue::Str => seq![34u8, 34u8],
        JsonValue::Null => seq![110u8, 117u8, 108u8, 108u8],
    }
}

/// Canonical bytes of one `"key":value` member.
pub open spec fn ser_member(m: (Seq<u8>, JsonValue)) -> Seq<u8> {
    seq![34u8] + m.0 + seq![34u8, 58u8] + ser_value(m.1)
}

/// Canonical bytes of an object's members, comma-separated.
pub open spec fn ser_members(ms: Seq<(Seq<u8>, JsonValue)>) -> Seq<u8>
    decreases ms.len(),
{
    if ms.len() == 0 {
        Seq::empty()
    } else if ms.len() == 1 {
        ser_member(ms[0])
    } else {
        ser_member(ms[0]) + seq![44u8] + ser_members(ms.drop_first())
    }
}

/// Canonical bytes of a whole object.
pub open spec fn ser_obj(ms: Seq<(Seq<u8>, JsonValue)>) -> Seq<u8> {
    seq![123u8] + ser_members(ms) + seq![125u8]
}

/// First position at or after `i` that holds no whitespace.
pub open spec fn skip_ws(s: Seq<u8>, i: int) -> int
    decreases s.len() - i,
{
    if 0 <= i < s.len() && is_ws(s[i]) {
        skip_ws(s, i + 1)
    } else {
        i
    }
}

/// End of the digit run starting at `i`.
pub open spec fn digit_run_end(s: Seq<u8>, i: int) -> int
    decreases s.len() - i,
{
    if 0 <= i < s.len() && is_digit(s[i]) {
        digit_run_end(s, i + 1)
    } else {
        i
    }
}

/// Value of the digits in `s[i..j)`.
pub open spec fn digits_val(s: Seq<u8>, i: int, j: int) -> nat
    decreases j - i,
{
    if i >= j {
        0
    } else {
        digits_val(s, i, j - 1) * 10 + (s[j - 1] - 48) as nat
    }
}

/// Ten to the `n`.
pub open spec fn pow10(n: nat) -> nat
    decreases n,
{
    if n == 0 {
        1
    } else {
        10 * pow10((n - 1) as nat)
    }
}

/// Parse a number starting at the digit at position `i` (sign already
/// consumed): at most 19 digits, no leading zero.
pub open spec fn parse_digits_spec(s: Seq<u8>, i: int) -> Option<(nat, int)> {
    let e = digit_run_end(s, i);
    if e == i {
        None
    } else if e - i > 19 {
        None
    } else if s[i] == 48 && e - i > 1 {
        None
    } else {
        Some((digits_val(s, i, e), e))
    }
}

/// Parse one scalar value at position `i`.
pub open spec fn parse_value_spec(s: Seq<u8>, i: int) -> Option<(JsonValue, int)> {
    if !(0 <= i < s.len()) {
        None
    } else if s[i] == 116 {
        if i + 4 <= s.len() && s.subrange(i, i + 4) == seq![116u8, 114u8, 117u8, 101u8] {
            Some((JsonValue::Bool(true), i + 4))
        } else {
            None
        }
    } else if s[i] == 102 {
        if i + 5 <= s.len() && s.subrange(i, i + 5) == seq![102u8, 97u8, 108u8, 115u8, 101u8] {
            Some((JsonValue::Bool(false), i + 5))
        } else {
            None
        }
    } else if s[i] == 110 {
        if i + 4 <= s.len() && s.subrange(i, i + 4) == seq![110u8, 117u8, 108u8, 108u8] {
            Some((JsonValue::Null, i + 4))
        } else {
            None
        }
    } else if s[i] == 34 {
        let e = string_run_end(s, i + 1);
        if e < s.len() && s[e] == 34 {
            Some((JsonValue::Str, e + 1))
        } else {
            None
        }
    } else if s[i] == 45 {
        match parse_digits_spec(s, i + 1) {
            None => None,
            Some((n, e)) => if n == 0 || n > 0x8000000000000000 {
                None
            } else {
                Some((JsonValue::Int((-(n as int)) as i64), e))
            },
        }
    } else if is_digit(s[i]) {
        match parse_digits_spec(s, i) {
            None => None,
            Some((n, e)) => if n > 0x7fffffffffffffff {
                None
            } else {
                Some((JsonValue::Int(n as i64), e))
            },
        }
    } else {
        None
    }
}

/// End of the key-byte run starting at `i`.
pub open spec fn key_run_end(s: Seq<u8>, i: int) -> int
    decreases s.len() - i,
{
    if 0 <= i < s.len() && is_key_byte(s[i]) {
        key_run_end(s, i + 1)
    } else {
        i
    }
}

/// Parse a quoted, nonempty key at position `i`.
pub open spec fn parse_key_spec(s: Seq<u8>, i: int) -> Option<(Seq<u8>, int)> {
    if !(0 <= i < s.len() && s[i] == 34) {
        None
    } else {
        let e = key_run_end(s, i + 1);
        if e == i + 1 {
            None
        } else if e < s.len() && s[e] == 34 {
            Some((s.subrange(i + 1, e), e + 1))
        } else {
            None
        }
    }
}

/// Parse the members of a nonempty object, `i` at the first key's quote,
/// through the closing brace.
pub open spec fn parse_members_spec(s: Seq<u8>, i: int) -> Option<(Seq<(Seq<u8>, JsonValue)>, int)>
    decreases s.len() - i,
{
    match parse_key_spec(s, i) {
        None => None,
        Some((k, i2)) => {
            let i3 = skip_ws(s, i2);
            if !(i3 < s.len() && s[i3] == 58) {
                None
            } else {
                let i4 = skip_ws(s, i3 + 1);
                match parse_value_spec(s, i4) {
                    None => None,
                    Some((v, i5)) => {
                        let i6 = skip_ws(s, i5);
                        if i6 < s.len() && s[i6] == 44 {
                            let i7 = skip_ws(s, i6 + 1);
                            if i7 <= i || i7 > s.len() {
                                None
                            } else {
                                match parse_members_spec(s, i7) {
                                    None => None,
                                    Some((rest, e)) => Some((seq![(k, v)] + rest, e)),
                                }
                            }
                        } else if i6 < s.len() && s[i6] == 125 {
                            Some((seq![(k, v)], i6 + 1))
                        } else {
                            None
                        }
                    },
                }
            }
        },
    }
}

/// Parse a whole buffer as one object, whitespace allowed around tokens.
pub open spec fn parse_obj_spec(s: Seq<u8>) -> Option<Seq<(Seq<u8>, JsonValue)>> {
    let i0 = skip_ws(s, 0);
    if !(i0 < s.len() && s[i0] == 123) {
        None
    } else {
        let i1 = skip_ws(s, i0 + 1);
        if i1 < s.len() && s[i1] == 125 {
            if skip_ws(s, i1 + 1) == s.len() {
                Some(Seq::empty())
            } else {
                None
            }
        } else {
            match parse_members_spec(s, i1) {
                None => None,
                Some((ms, e)) => if skip_ws(s, e) == s.len() {
                    Some(ms)
                } else {
                    None
                },
            }
        }
    }
}

/// A digit run ends within the buffer and holds only digits.
proof fn lemma_digit_run(s: Seq<u8>, i: int)
    requires
        0 <= i <= s.len(),
    ensures
        i <= digit_run_end(s, i) <= s.len(),
        forall|j: int| i <= j < digit_run_end(s, i) ==> is_digit(#[trigger] s[j]),
    decreases s.len() - i,
{
    if i < s.len() && is_digit(s[i]) {
        lemma_digit_run(s, i + 1);
    }
}

/// `pow10` grows with its exponent.
proof fn lemma_pow10_mono(a: nat, b: nat)
    requires
        a <= b,
    ensures
        pow10(a) <= pow10(b),
    decreases b,
{
    if a < b {
        lemma_pow10_mono(a, (b - 1) as nat);
        assert(pow10(b) == 10 * pow10((b - 1) as nat));
    }
}

/// Exec form of `skip_ws`.
fn skip_ws_x(s: &Vec<u8>, i: usize) -> (r: usize)
    requires
        i <= s@.len(),
    ensures
        r == skip_ws(s@, i as int),
        i <= r <= s@.len(),
{
    let mut t = i;
    while t < s.len() && (s[t] == 32 || s[t] == 9 || s[t] == 10 || s[t] == 13)
        invariant
            i <= t <= s@.len(),
            skip_ws(s@, t as int) == skip_ws(s@, i as int),
        decreases s@.len() - t,
    {
        t += 1;
    }
    t
}

/// Exec form of `digit_run_end`.
fn digit_run_end_x(s: &Vec<u8>, i: usize) -> (r: usize)
    requires
        i <= s@.len(),
    ensures
        r == digit_run_end(s@, i as int),
        i <= r <= s@.len(),
{
    let mut t = i;
    while t < s.len() && 48 <= s[t] && s[t] <= 57
        invariant
            i <= t <= s@.len(),
            digit_run_end(s@, t as int) == digit_run_end(s@, i as int),
        decreases s@.len() - t,
    {
        t += 1;
    }
    t
}

/// Exec form of `key_run_end`.
fn key_run_end_x(s: &Vec<u8>, i: usize) -> (r: usize)
    requires
        i <= s@.len(),
    ensures
        r == key_run_end(s@, i as int),
        i <= r <= s@.len(),
{
    let mut t = i;
    while t < s.len() && 33 <= s[t] && s[t] <= 126 && s[t] != 34 && s[t] != 92
        invariant
            i <= t <= s@.len(),
            key_run_end(s@, t as int) == key_run_end(s@, i as int),
        decreases s@.len() - t,
    {
        t += 1;
    }
    t
}

/// Exec form of `string_run_end`.
fn string_run_end_x(s: &Vec<u8>, i: usize) -> (r: usize)
    requires
        i <= s@.len(),
    ensures
        r == string_run_end(s@, i as int),
        i <= r <= s@.len(),
{
    let mut t = i;
    while t < s.len() && 32 <= s[t] && s[t] <= 126 && s[t] != 34 && s[t] != 92
        invariant
            i <= t <= s@.len(),
            string_run_end(s@, t as int) == string_run_end(s@, i as int),
        decreases s@.len() - t,
    {
        t += 1;
    }
    t
}

/// Exec form of `parse_digits_spec`.
#[verifier::loop_isolation(false)]
fn parse_digits_x(s: &Vec<u8>, i: usize) -> (r: Option<(u64, usize)>)
    requires
        i <= s@.len(),
    ensures
        match r {
            Some((n, e)) => parse_digits_spec(s@, i as int) == Some((n as nat, e as int))
                && i < e <= s@.len(),
            None => parse_digits_spec(s@, i as int) is None,
        },
{
    let e = digit_run_end_x(s, i);
    if e == i {
        return None;
    }
    if e - i > 19 {
        return None;
    }
    if s[i] == 48 && e - i > 1 {
        return None;
    }
    proof {
        lemma_digit_run(s@, i as int);
        assert(pow10(19) == 10000000000000000000) by {
            reveal_with_fuel(pow10, 20);
        }
    }
    let mut n: u64 = 0;
    let mut t = i;
    while t < e
        invariant
            i <= t <= e,
            n == digits_val(s@, i as int, t as int),
            (n as nat) < pow10((t - i) as nat),
        decreases e - t,
    {
        assert(is_digit(s@[t as int]));
        let d: u8 = s[t] - 48;
        proof {
            lemma_pow10_mono((t + 1 - i) as nat, 19);
            assert((n as int) * 10 + d < pow10((t - i) as nat) * 10) by (nonlinear_arith)
                requires
                    (n as nat) < pow10((t - i) as nat),
                    (d as int) < 10,
                    n >= 0,
            ;
            assert(pow10((t + 1 - i) as nat) == 10 * pow10((t - i) as nat));
        }
        n = n * 10 + (d as u64);
        t += 1;
    }
    Some((n, e))
}

/// Exec form of `parse_value_spec`.
fn parse_value_x(s: &Vec<u8>, i: usize) -> (r: Option<(JsonValue, usize)>)
    requires
        i <= s@.len(),
    ensures
        match r {
            Some((v, e)) => parse_value_spec(s@, i as int) == Some((v, e as int))
                && i < e <= s@.len(),
            None => parse_value_spec(s@, i as int) is None,
        },
{
    if i >= s.len() {
        return None;
    }
    let c = s[i];
    if c == 116 {
        if s.len() - i >= 4 && s[i + 1] == 114 && s[i + 2] == 117 && s[i + 3] == 101 {
            proof {
                assert(s@.subrange(i as int, i as int + 4) =~= seq![116u8, 114u8, 117u8, 101u8]);
            }
            Some((JsonValue::Bool(true), i + 4))
        } else {
            proof {
                if i + 4 <= s@.len() {
                    let t = s@.subrange(i as int, i as int + 4);
                    assert(t[0] == s@[i as int] && t[1] == s@[i as int + 1]
                        && t[2] == s@[i as int + 2] && t[3] == s@[i as int + 3]);
                }
            }
            None
        }
    } else if c == 102 {
        if s.len() - i >= 5 && s[i + 1] == 97 && s[i + 2] == 108 && s[i + 3] == 115
            && s[i + 4] == 101 {
            proof {
                assert(s@.subrange(i as int, i as int + 5)
                    =~= seq![102u8, 97u8, 108u8, 115u8, 101u8]);
            }
            Some((JsonValue::Bool(false), i + 5))
        } else {
            proof {
                if i + 5 <= s@.len() {
                    let t = s@.subrange(i as int, i as int + 5);
                    assert(t[0] == s@[i as int] && t[1] == s@[i as int + 1]
                        && t[2] == s@[i as int + 2] && t[3] == s@[i as int + 3]
                        && t[4] == s@[i as int + 4]);
                }
            }
            None
        }
    } else if c == 110 {
        if s.len() - i >= 4 && s[i + 1] == 117 && s[i + 2] == 108 && s[i + 3] == 108 {
            proof {
                assert(s@.subrange(i as int, i as int + 4) =~= seq![110u8, 117u8, 108u8, 108u8]);
            }
            Some((JsonValue::Null, i + 4))
        } else {
            proof {
                if i + 4 <= s@.len() {
                    let t = s@.subrange(i as int, i as int + 4);
                    assert(t[0] == s@[i as int] && t[1] == s@[i as int + 1]
                        && t[2] == s@[i as int + 2] && t[3] == s@[i as int + 3]);
                }
            }
            None
        }
    } else if c == 34 {
        let e = string_run_end_x(s, i + 1);
        if e < s.len() && s[e] == 34 {
            Some((JsonValue::Str, e + 1))
        } else {
            None
        }
    } else if c == 45 {
        match parse_digits_x(s, i + 1) {
            None => None,
            Some((n, e)) => {
                if n == 0 || n > 0x8000000000000000u64 {
                    None
                } else if n == 0x8000000000000000u64 {
                    Some((JsonValue::Int(i64::MIN), e))
                } else {
                    Some((JsonValue::Int(-(n as i64)), e))
                }
            },
        }
    } else if 48 <= c && c <= 57 {
        match parse_digits_x(s, i) {
            None => None,
            Some((n, e)) => {
                if n > 0x7fffffffffffffffu64 {
                    None
                } else {
                    Some((JsonValue::Int(n as i64), e))
                }
            },
        }
    } else {
        None
    }
}

/// Exec form of `parse_key_spec`.
fn parse_key_x(s: &Vec<u8>, i: usize) -> (r: Option<(Vec<u8>, usize)>)
    requires
        i <= s@.len(),
    ensures
        match r {
            Some((k, e)) => parse_key_spec(s@, i as int) == Some((k@, e as int))
                && i < e <= s@.len(),
            None => parse_key_spec(s@, i as int) is None,
        },
{
    if i >= s.len() || s[i] != 34 {
        return None;
    }
    let e = key_run_end_x(s, i + 1);
    if e == i + 1 {
        return None;
    }
    if e < s.len() && s[e] == 34 {
        let mut k: Vec<u8> = Vec::new();
        let mut t = i + 1;
        while t < e
            invariant
                i + 1 <= t <= e <= s@.len(),
                k@ =~= s@.subrange(i as int + 1, t as int),
            decreases e - t,
        {
            k.push(s[t]);
            t += 1;
            assert(k@ =~= s@.subrange(i as int + 1, t as int));
        }
        Some((k, e + 1))
    } else {
        None
    }
}

/// Parse a whole buffer as one object of scalar members. Fails with
/// `InvalidJson` on exactly the buffers that `parse_obj_spec` rejects.
#[verifier::loop_isolation(false)]
pub fn parse_obj(s: &Vec<u8>) -> (r: Result<Vec<(Vec<u8>, JsonValue)>, CodecError>)
    ensures
        match r {
            Ok(ms) => parse_obj_spec(s@) == Some(members_view(ms@)),
            Err(e) => e == CodecError::InvalidJson && parse_obj_spec(s@) is None,
        },
{
    let i0 = skip_ws_x(s, 0);
    if !(i0 < s.len() && s[i0] == 123) {
        return Err(CodecError::InvalidJson);
    }
    let i1 = skip_ws_x(s, i0 + 1);
    if i1 < s.len() && s[i1] == 125 {
        if skip_ws_x(s, i1 + 1) == s.len() {
            let ms: Vec<(Vec<u8>, JsonValue)> = Vec::new();
            proof {
                assert(members_view(ms@) =~= Seq::<(Seq<u8>, JsonValue)>::empty());
            }
            return Ok(ms);
        } else {
            return Err(CodecError::InvalidJson);
        }
    }
    let mut acc: Vec<(Vec<u8>, JsonValue)> = Vec::new();
    let mut cur: usize = i1;
    proof {
        assert(members_view(acc@) =~= Seq::<(Seq<u8>, JsonValue)>::empty());
        let p = parse_members_spec(s@, i1 as int);
        if p is Some {
            let rest = p->Some_0.0;
            assert(members_view(acc@) + rest =~= rest);
        }
    }
    loop
        invariant
            cur <= s@.len(),
            parse_obj_spec(s@) == (match parse_members_spec(s@, cur as int) {
                None => None::<Seq<(Seq<u8>, JsonValue)>>,
                Some((rest, e)) => if skip_ws(s@, e) == s@.len() {
                    Some(members_view(acc@) + rest)
                } else {
                    None::<Seq<(Seq<u8>, JsonValue)>>
                },
            }),
        decreases s@.len() - cur,
    {
        let (k, i2) = match parse_key_x(s, cur) {
            Some(p) => p,
            None => {
                return Err(CodecError::InvalidJson);
            },
        };
        let i3 = skip_ws_x(s, i2);
        if !(i3 < s.len() && s[i3] == 58) {
            return Err(CodecError::InvalidJson);
        }
        let i4 = skip_ws_x(s, i3 + 1);
        let (v, i5) = match parse_value_x(s, i4) {
            Some(p) => p,
            None => {
                return Err(CodecError::InvalidJson);
            },
        };
        let i6 = skip_ws_x(s, i5);
        let ghost kview = k@;
        let ghost acc0 = acc@;
        if i6 < s.len() && s[i6] == 44 {
            let i7 = skip_ws_x(s, i6 + 1);
            if i7 <= cur {
                return Err(CodecError::InvalidJson);
            }
            acc.push((k, v));
            proof {
                assert(members_view(acc@) =~= members_view(acc0).push((kview, v)));
                let p = parse_members_spec(s@, i7 as int);
                if p is Some {
                    let rest2 = p->Some_0.0;
                    assert(members_view(acc@) + rest2
                        =~= members_view(acc0) + (seq![(kview, v)] + rest2));
                }
            }
            cur = i7;
        } else if i6 < s.len() && s[i6] == 125 {
            acc.push((k, v));
            proof {
                assert(members_view(acc@) =~= members_view(acc0).push((kview, v)));
                assert(members_view(acc@) =~= members_view(acc0) + seq![(kview, v)]);
            }
            if skip_ws_x(s, i6 + 1) == s.len() {
                return Ok(acc);
            } else {
                return Err(CodecError::InvalidJson);
            }
        } else {
            return Err(CodecError::InvalidJson);
        }
    }
}

/// Append the minimal decimal digits of `n`.
fn push_digits(out: &mut Vec<u8>, n: u64)
    ensures
        final(out)@ == old(out)@ + dec_digits(n as nat),
    decreases n,
{
    if n < 10 {
        out.push(48 + (n as u8));
        assert(out@ =~= old(out)@ + dec_digits(n as nat));
    } else {
        push_digits(out, n / 10);
        out.push(48 + ((n % 10) as u8));
        assert(out@ =~= old(out)@ + dec_digits(n as nat));
    }
}

/// Append the canonical bytes of an integer.
fn push_int(out: &mut Vec<u8>, v: i64)
    ensures
        final(out)@ == old(out)@ + ser_int(v as int),
{
    if v < 0 {
        out.push(45u8);
        let m: u64 = if v == i64::MIN {
            0x8000000000000000u64
        } else {
            (-v) as u64
        };
        assert(m as int == -(v as int));
        push_digits(out, m);
        assert(out@ =~= old(out)@ + ser_int(v as int));
    } else {
        push_digits(out, v as u64);
    }
}

/// `ser_members` of one more member appends a comma (when members precede)
/// and the member's bytes.
proof fn lemma_ser_members_snoc(ms: Seq<(Seq<u8>, JsonValue)>, m: (Seq<u8>, JsonValue))
    ensures
        ms.len() == 0 ==> ser_members(ms.push(m)) == ser_member(m),
        ms.len() > 0 ==> ser_members(ms.push(m)) == ser_members(ms) + seq![44u8] + ser_member(m),
    decreases ms.len(),
{
    if ms.len() == 0 {
        assert(ser_members(ms.push(m)) == ser_member(ms.push(m)[0]));
    } else {
        lemma_ser_members_snoc(ms.drop_first(), m);
        assert(ms.push(m).drop_first() =~= ms.drop_first().push(m));
        if ms.len() == 1 {
            assert(ser_members(ms.push(m))
                =~= ser_members(ms) + seq![44u8] + ser_member(m));
        } else {
            assert(ser_members(ms.push(m))
                =~= ser_members(ms) + seq![44u8] + ser_member(m));
        }
    }
}

/// Canonical object bytes of a member list.
#[verifier::loop_isolation(false)]
#[verifier::rlimit(100)]
pub fn to_json_bytes(ms: &Vec<(Vec<u8>, JsonValue)>) -> (r: Vec<u8>)
    ensures
        r@ == ser_obj(members_view(ms@)),
{
    let ghost vm = members_view(ms@);
    let mut out: Vec<u8> = Vec::new();
    out.push(123u8);
    let mut t: usize = 0;
    proof {
        assert(vm.take(0) =~= Seq::<(Seq<u8>, JsonValue)>::empty());
        assert(out@ =~= seq![123u8] + ser_members(vm.take(0)));
    }
    while t < ms.len()
        invariant
            t <= ms@.len(),
            out@ =~= seq![123u8] + ser_members(vm.take(t as int)),
        decreases ms@.len() - t,
    {
        let ghost base = out@;
        if t > 0 {
            out.push(44u8);
        }
        out.push(34u8);
        let klen = ms[t].0.len();
        let mut u: usize = 0;
        while u < klen
            invariant
                u <= klen,
                t < ms@.len(),
                klen == ms@[t as int].0@.len(),
                out@ =~= base + (if t > 0 { seq![44u8] } else { Seq::<u8>::empty() })
                    + seq![34u8] + ms@[t as int].0@.take(u as int),
            decreases klen - u,
        {
            out.push(ms[t].0[u]);
            u += 1;
            assert(out@ =~= base + (if t > 0 { seq![44u8] } else { Seq::<u8>::empty() })
                + seq![34u8] + ms@[t as int].0@.take(u as int));
        }
        proof {
            assert(ms@[t as int].0@.take(klen as int) =~= ms@[t as int].0@);
        }
        out.push(34u8);
        out.push(58u8);
        let ghost mid = out@;
        match ms[t].1 {
            JsonValue::Int(v) => {
                push_int(&mut out, v);
            },
            JsonValue::Bool(b) => {
                if b {
                    out.push(116u8);
                    out.push(114u8);
                    out.push(117u8);
                    out.push(101u8);
                } else {
                    out.push(102u8);
                    out.push(97u8);
                    out.push(108u8);
                    out.push(115u8);
                    out.push(101u8);
                }
                assert(out@ =~= mid + ser_value(ms@[t as int].1));
            },
            JsonValue::Str => {
                out.push(34u8);
                out.push(34u8);
                assert(out@ =~= mid + ser_value(ms@[t as int].1));
            },
            JsonValue::Null => {
                out.push(110u8);
                out.push(117u8);
                out.push(108u8);
                out.push(108u8);
                assert(out@ =~= mid + ser_value(ms@[t as int].1));
            },
        }
        proof {
            assert(vm[t as int] == (ms@[t as int].0@, ms@[t as int].1));
            assert(out@ =~= base + (if t > 0 { seq![44u8] } else { Seq::<u8>::empty() })
                + ser_member(vm[t as int]));
            lemma_ser_members_snoc(vm.take(t as int), vm[t as int]);
            assert(vm.take(t as int + 1) =~= vm.take(t as int).push(vm[t as int]));
            assert(out@ =~= seq![123u8] + ser_members(vm.take(t as int + 1)));
        }
        t += 1;
    }
    out.push(125u8);
    proof {
        assert(vm.take(ms@.len() as int) =~= vm);
        assert(out@ =~= ser_obj(vm));
    }
    out
}

} // verus!
