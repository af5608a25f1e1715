use vstd::arithmetic::div_mod::{lemma_add_mod_noop, lemma_mul_mod_noop_left};
use vstd::prelude::*;

verus! {

/// 2^64: integer literals are reduced modulo this, as a left shift of a `u64` would.
pub open spec fn modulus() -> int {
    0x1_0000_0000_0000_0000
}

pub open spec fn wrap64(n: nat) -> u64 {
    (n % 0x1_0000_0000_0000_0000) as u64
}

pub open spec fn is_bin_digit(c: char) -> bool {
    c == '0' || c == '1'
}

pub open spec fn is_dec_digit(c: char) -> bool {
    '0' <= c <= '9'
}

pub open spec fn is_hex_digit(c: char) -> bool {
    is_dec_digit(c) || ('a' <= c <= 'f') || ('A' <= c <= 'F')
}

/// The value of a digit character in any base up to 16, letters in either case.
pub open spec fn digit_value(c: char) -> nat {
    if '0' <= c <= '9' {
        (c as nat - '0' as nat) as nat
    } else if 'a' <= c <= 'f' {
        (c as nat - 'a' as nat + 10) as nat
    } else if 'A' <= c <= 'F' {
        (c as nat - 'A' as nat + 10) as nat
    } else {
        0
    }
}

/// Positional value of a digit string, most significant digit first.
pub open spec fn digits_value(s: Seq<char>, base: nat) -> nat
    decreases s.len(),
{
    if s.len() == 0 {
        0
    } else {
        digits_value(s.drop_last(), base) * base + digit_value(s.last())
    }
}

pub open spec fn all_bin_digits(s: Seq<char>) -> bool {
    forall|i: int| 0 <= i < s.len() ==> is_bin_digit(#[trigger] s[i])
}

pub open spec fn all_hex_digits(s: Seq<char>) -> bool {
    forall|i: int| 0 <= i < s.len() ==> is_hex_digit(#[trigger] s[i])
}

pub open spec fn all_dec_digits(s: Seq<char>) -> bool {
    forall|i: int| 0 <= i < s.len() ==> is_dec_digit(#[trigger] s[i])
}

pub open spec fn has_prefix(s: Seq<char>, a: char, b: char) -> bool {
    s.len() >= 2 && s[0] == a && s[1] == b
}

/// `k` is the position of the only `.` in `s`, and every other character is a decimal digit.
pub open spec fn is_point_at(s: Seq<char>, k: int) -> bool {
    &&& 0 <= k < s.len()
    &&& s[k] == '.'
    &&& forall|j: int| 0 <= j < s.len() && j != k ==> is_dec_digit(#[trigger] s[j])
}

/// The digit values of a string of decimal digits.
pub open spec fn digit_seq(s: Seq<char>) -> Seq<u8> {
    Seq::new(s.len(), |i: int| digit_value(s[i]) as u8)
}

/// `d` without its trailing zeros, which add nothing to a fraction.
pub open spec fn trim_zeros(d: Seq<u8>) -> Seq<u8>
    decreases d.len(),
{
    if d.len() > 0 && d.last() == 0 {
        trim_zeros(d.drop_last())
    } else {
        d
    }
}

/// The mathematical content of a decoded literal.
pub enum NumberModel {
    Invalid,
    UInt(u64),
    /// Integer part (reduced modulo 2^64) and the digits after the point, without trailing zeros.
    Float(u64, Seq<u8>),
}

pub open spec fn binary_model(s: Seq<char>) -> NumberModel {
    if has_prefix(s, '0', 'b') && all_bin_digits(s.skip(2)) {
        NumberModel::UInt(wrap64(digits_value(s.skip(2), 2)))
    } else {
        NumberModel::Invalid
    }
}

pub open spec fn hex_model(s: Seq<char>) -> NumberModel {
    if has_prefix(s, '0', 'x') && all_hex_digits(s.skip(2)) {
        NumberModel::UInt(wrap64(digits_value(s.skip(2), 16)))
    } else {
        NumberModel::Invalid
    }
}

pub open spec fn dec_model(s: Seq<char>) -> NumberModel {
    if all_dec_digits(s) {
        NumberModel::UInt(wrap64(digits_value(s, 10)))
    } else if exists|k: int| is_point_at(s, k) {
        let k = choose|k: int| is_point_at(s, k);
        NumberModel::Float(
            wrap64(digits_value(s.take(k), 10)),
            trim_zeros(digit_seq(s.skip(k + 1))),
        )
    } else {
        NumberModel::Invalid
    }
}

/// The base is chosen by the literal's own prefix: `0b` binary, `0x` hexadecimal, else decimal.
pub open spec fn number_model(s: Seq<char>) -> NumberModel {
    if has_prefix(s, '0', 'b') {
        binary_model(s)
    } else if has_prefix(s, '0', 'x') {
        hex_model(s)
    } else {
        dec_model(s)
    }
}

/// A decoded numeric literal.
pub enum LexNumberValue {
    Invalid,
    UInt(u64),
    /// A literal with a point: the integer part (modulo 2^64) and the digits after the point,
    /// without trailing zeros.
    Float { int_part: u64, frac_digits: Vec<u8> },
}

impl View for LexNumberValue {
    type V = NumberModel;

    open spec fn view(&self) -> NumberModel {
        match self {
            LexNumberValue::Invalid => NumberModel::Invalid,
            LexNumberValue::UInt(v) => NumberModel::UInt(*v),
            LexNumberValue::Float { int_part, frac_digits } => NumberModel::Float(
                *int_part,
                frac_digits@,
            ),
        }
    }
}

/// One step of positional accumulation stays exact modulo 2^64.
proof fn lemma_wrap_step(v: nat, base: nat, d: nat)
    ensures
        ((wrap64(v) as int * base + d) % modulus()) as u64 == wrap64((v * base + d) as nat),
{
    let m = modulus();
    let vi = v as int;
    let bi = base as int;
    let di = d as int;
    lemma_mul_mod_noop_left(vi, bi, m);
    lemma_add_mod_noop((vi % m) * bi, di, m);
    lemma_add_mod_noop(vi * bi, di, m);
}

proof fn lemma_digits_push(s: Seq<char>, i: int, base: nat)
    requires
        0 <= i < s.len(),
    ensures
        digits_value(s.take(i + 1), base) == digits_value(s.take(i), base) * base + digit_value(
            s[i],
        ),
{
    assert(s.take(i + 1).drop_last() =~= s.take(i));
}

/// `b` is `a`, or `a` with the case of a hexadecimal letter swapped.
pub open spec fn same_hex_ignoring_case(a: char, b: char) -> bool {
    ||| a == b
    ||| 'a' <= a <= 'f' && b as int == a as int - 32
    ||| 'A' <= a <= 'F' && b as int == a as int + 32
}

proof fn lemma_digits_ignore_case(a: Seq<char>, b: Seq<char>)
    requires
        a.len() == b.len(),
        forall|i: int| 0 <= i < a.len() ==> same_hex_ignoring_case(a[i], b[i]),
    ensures
        digits_value(a, 16) == digits_value(b, 16),
        all_hex_digits(a) == all_hex_digits(b),
    decreases a.len(),
{
    if a.len() > 0 {
        lemma_digits_ignore_case(a.drop_last(), b.drop_last());
        assert(same_hex_ignoring_case(a[a.len() - 1], b[b.len() - 1]));
        assert(digit_value(a.last()) == digit_value(b.last()));
        assert(is_hex_digit(a.last()) == is_hex_digit(b.last()));
        if all_hex_digits(a) {
            assert forall|i: int| 0 <= i < b.len() implies is_hex_digit(#[trigger] b[i]) by {
                assert(same_hex_ignoring_case(a[i], b[i]));
                assert(is_hex_digit(a[i]));
            }
        }
        if all_hex_digits(b) {
            assert forall|i: int| 0 <= i < a.len() implies is_hex_digit(#[trigger] a[i]) by {
                assert(same_hex_ignoring_case(a[i], b[i]));
                assert(is_hex_digit(b[i]));
            }
        }
    }
}

/// The case of the letters in a hexadecimal literal does not affect what it decodes to.
pub proof fn lemma_hex_case_insensitive(s: Seq<char>, t: Seq<char>)
    requires
        s.len() == t.len(),
        forall|i: int| 0 <= i < s.len() ==> same_hex_ignoring_case(s[i], t[i]),
    ensures
        hex_model(s) == hex_model(t),
{
    if s.len() >= 2 {
        assert(same_hex_ignoring_case(s[0], t[0]));
        assert(same_hex_ignoring_case(s[1], t[1]));
        let a = s.skip(2);
        let b = t.skip(2);
        assert forall|i: int| 0 <= i < a.len() implies same_hex_ignoring_case(a[i], b[i]) by {
            assert(same_hex_ignoring_case(s[i + 2], t[i + 2]));
        }
        lemma_digits_ignore_case(a, b);
    }
}

proof fn lemma_zeros_value(z: Seq<char>)
    requires
        forall|i: int| 0 <= i < z.len() ==> z[i] == '0',
    ensures
        digits_value(z, 10) == 0,
    decreases z.len(),
{
    if z.len() > 0 {
        lemma_zeros_value(z.drop_last());
        assert(z[z.len() - 1] == '0');
    }
}

proof fn lemma_zeros_prefix_value(z: Seq<char>, s: Seq<char>)
    requires
        forall|i: int| 0 <= i < z.len() ==> z[i] == '0',
    ensures
        digits_value(z + s, 10) == digits_value(s, 10),
    decreases s.len(),
{
    if s.len() == 0 {
        assert(z + s =~= z);
        lemma_zeros_value(z);
    } else {
        lemma_zeros_prefix_value(z, s.drop_last());
        assert((z + s).drop_last() =~= z + s.drop_last());
        assert((z + s).last() == s.last());
    }
}

/// Leading zeros do not change the value of a decimal integer literal.
pub proof fn lemma_dec_leading_zeros(z: Seq<char>, s: Seq<char>)
    requires
        forall|i: int| 0 <= i < z.len() ==> z[i] == '0',
        all_dec_digits(s),
    ensures
        dec_model(z + s) == dec_model(s),
{
    lemma_zeros_prefix_value(z, s);
    assert forall|i: int| 0 <= i < (z + s).len() implies is_dec_digit(#[trigger] (z + s)[i]) by {
        if i < z.len() {
            assert((z + s)[i] == z[i]);
        } else {
            assert((z + s)[i] == s[i - z.len()]);
        }
    }
}

/// Accumulates `digit` into `value` in the given base, wrapping modulo 2^64.
fn shift_in(value: u64, base: u64, digit: u64) -> (r: u64)
    requires
        base <= 16,
        digit < base,
    ensures
        r as int == (value as int * base as int + digit as int) % modulus(),
{
    let hi = value.wrapping_mul(base);
    assert(hi as int == (value as int * base as int) % modulus());
    let r = hi.wrapping_add(digit);
    proof {
        lemma_add_mod_noop(value as int * base as int, digit as int, modulus());
        vstd::arithmetic::div_mod::lemma_mod_twice(value as int * base as int, modulus());
        vstd::arithmetic::div_mod::lemma_small_mod(digit as nat, modulus() as nat);
    }
    r
}

/// The value of a digit character that `is_hex_digit` accepts.
fn char_digit(c: char) -> (r: u64)
    requires
        is_hex_digit(c),
    ensures
        r as nat == digit_value(c),
        r < 16,
{
    if '0' <= c && c <= '9' {
        (c as u32 - '0' as u32) as u64
    } else if 'a' <= c && c <= 'f' {
        (c as u32 - 'a' as u32 + 10) as u64
    } else {
        (c as u32 - 'A' as u32 + 10) as u64
    }
}

fn starts_with_pair(v: &Vec<char>, a: char, b: char) -> (r: bool)
    ensures
        r == has_prefix(v@, a, b),
{
    v.len() >= 2 && v[0] == a && v[1] == b
}

impl LexNumberValue {
    /// Decodes a literal, choosing the base by its prefix.
    pub fn new(v: &Vec<char>) -> (r: Self)
        ensures
            r@ == number_model(v@),
    {
        if starts_with_pair(v, '0', 'b') {
            LexNumberValue::new_binary(v)
        } else if starts_with_pair(v, '0', 'x') {
            LexNumberValue::new_hex(v)
        } else {
            LexNumberValue::new_dec(v)
        }
    }

    /// Decodes `0b` followed by binary digits.
    pub fn new_binary(v: &Vec<char>) -> (r: Self)
        ensures
            r@ == binary_model(v@),
    {
        LexNumberValue::new_prefixed(v, 'b', 2)
    }

    /// Decodes `0x` followed by hexadecimal digits of either case.
    pub fn new_hex(v: &Vec<char>) -> (r: Self)
        ensures
            r@ == hex_model(v@),
    {
        LexNumberValue::new_prefixed(v, 'x', 16)
    }

    /// Decodes a decimal literal: digits with at most one point.
    pub fn new_dec(v: &Vec<char>) -> (r: Self)
        ensures
            r@ == dec_model(v@),
    {
        let ghost s = v@;
        let mut value: u64 = 0;
        let mut frac: Vec<u8> = Vec::new();
        let mut is_int: bool = true;
        let ghost mut k: int = 0;
        let mut i: usize = 0;
        while i < v.len()
            invariant
                s == v@,
                0 <= i <= s.len(),
                is_int ==> all_dec_digits(s.take(i as int)) && frac@.len() == 0,
                is_int ==> value == wrap64(digits_value(s.take(i as int), 10)),
                !is_int ==> 0 <= k < i && s[k] == '.',
                !is_int ==> forall|j: int| 0 <= j < i && j != k ==> is_dec_digit(#[trigger] s[j]),
                !is_int ==> value == wrap64(digits_value(s.take(k), 10)),
                !is_int ==> frac@ == digit_seq(s.subrange(k + 1, i as int)),
            decreases s.len() - i,
        {
            let c = v[i];
            if c == '.' {
                if !is_int {
                    proof {
                        assert forall|k2: int| !is_point_at(s, k2) by {
                            if k2 != i && is_point_at(s, k2) {
                                assert(is_dec_digit(s[i as int]));
                            }
                            if k2 == i && is_point_at(s, k2) {
                                assert(is_dec_digit(s[k]));
                            }
                        }
                        assert(!is_dec_digit(s[i as int]));
                    }
                    return LexNumberValue::Invalid;
                }
                proof {
                    assert forall|j: int| 0 <= j < i implies is_dec_digit(#[trigger] s[j]) by {
                        assert(s.take(i as int)[j] == s[j]);
                    }
                    assert(s.subrange(i + 1, i + 1) =~= Seq::<char>::empty());
                    assert(frac@ =~= digit_seq(s.subrange(i + 1, i + 1)));
                }
                is_int = false;
                proof {
                    k = i as int;
                }
            } else if '0' <= c && c <= '9' {
                let d = char_digit(c);
                if is_int {
                    let next = shift_in(value, 10, d);
                    proof {
                        lemma_digits_push(s, i as int, 10);
                        lemma_wrap_step(digits_value(s.take(i as int), 10), 10, d as nat);
                        assert(s.take(i + 1) =~= s.take(i as int).push(c));
                    }
                    value = next;
                } else {
                    frac.push(d as u8);
                    proof {
                        assert(s.subrange(k + 1, i + 1) =~= s.subrange(k + 1, i as int).push(c));
                        assert(frac@ =~= digit_seq(s.subrange(k + 1, i + 1)));
                    }
                }
            } else {
                proof {
                    assert forall|k2: int| !is_point_at(s, k2) by {
                        if is_point_at(s, k2) && k2 != i {
                            assert(is_dec_digit(s[i as int]));
                        }
                    }
                    assert(!is_dec_digit(s[i as int]));
                }
                return LexNumberValue::Invalid;
            }
            i = i + 1;
        }
        if is_int {
            proof {
                assert(s.take(i as int) =~= s);
            }
            LexNumberValue::UInt(value)
        } else {
            proof {
                assert(is_point_at(s, k));
                let k2 = choose|k2: int| is_point_at(s, k2);
                if k2 != k {
                    assert(is_dec_digit(s[k]));
                }
                assert(!is_dec_digit(s[k]));
                assert(s.subrange(k + 1, i as int) =~= s.skip(k + 1));
            }
            let ghost all = frac@;
            while frac.len() > 0 && frac[frac.len() - 1] == 0
                invariant
                    trim_zeros(frac@) == trim_zeros(all),
                decreases frac@.len(),
            {
                let ghost before = frac@;
                frac.pop();
                proof {
                    assert(frac@ =~= before.drop_last());
                }
            }
            LexNumberValue::Float { int_part: value, frac_digits: frac }
        }
    }

    fn new_prefixed(v: &Vec<char>, tag: char, base: u64) -> (r: Self)
        requires
            (tag == 'b' && base == 2) || (tag == 'x' && base == 16),
        ensures
            tag == 'b' ==> r@ == binary_model(v@),
            tag == 'x' ==> r@ == hex_model(v@),
    {
        if !starts_with_pair(v, '0', tag) {
            return LexNumberValue::Invalid;
        }
        let ghost s = v@;
        let ghost body = s.skip(2);
        let mut value: u64 = 0;
        let mut i: usize = 2;
        while i < v.len()
            invariant
                s == v@,
                body == s.skip(2),
                2 <= i <= s.len(),
                (tag == 'b' && base == 2) || (tag == 'x' && base == 16),
                tag == 'b' ==> all_bin_digits(body.take(i - 2)),
                tag == 'x' ==> all_hex_digits(body.take(i - 2)),
                value == wrap64(digits_value(body.take(i - 2), base as nat)),
            decreases s.len() - i,
        {
            let c = v[i];
            let ok = if base == 2 {
                c == '0' || c == '1'
            } else {
                ('0' <= c && c <= '9') || ('a' <= c && c <= 'f') || ('A' <= c && c <= 'F')
            };
            if !ok {
                proof {
                    assert(body[i - 2] == c);
                }
                return LexNumberValue::Invalid;
            }
            let d = char_digit(c);
            let next = shift_in(value, base, d);
            proof {
                assert(body[i - 2] == c);
                lemma_digits_push(body, i - 2, base as nat);
                lemma_wrap_step(digits_value(body.take(i - 2), base as nat), base as nat, d as nat);
                assert(body.take(i - 1) =~= body.take(i - 2).push(c));
            }
            value = next;
            i = i + 1;
        }
        proof {
            assert(body.take(i - 2) =~= body);
        }
        LexNumberValue::UInt(value)
    }
}

impl LexNumberValue {
    pub fn is_invalid(&self) -> (r: bool)
        ensures
            r == (self@ is Invalid),
    {
        match self {
            LexNumberValue::Invalid => true,
            _ => false,
        }
    }

    pub fn is_int(&self) -> (r: bool)
        ensures
            r == (self@ is UInt),
    {
        match self {
            LexNumberValue::UInt(_) => true,
            _ => false,
        }
    }

    /// The value as an integer: a float gives its integer part, an invalid value 0.
    pub fn as_int(&self) -> (r: u64)
        ensures
            r == match self@ {
                NumberModel::Invalid => 0,
                NumberModel::UInt(v) => v,
                NumberModel::Float(v, _) => v,
            },
    {
        match self {
            LexNumberValue::UInt(value) => *value,
            LexNumberValue::Float { int_part, .. } => *int_part,
            LexNumberValue::Invalid => 0,
        }
    }

    /// The digits after the point; empty unless the value is a float.
    pub fn frac_digits(&self) -> (r: Vec<u8>)
        ensures
            r@ == match self@ {
                NumberModel::Float(_, d) => d,
                _ => Seq::<u8>::empty(),
            },
    {
        match self {
            LexNumberValue::Float { frac_digits, .. } => frac_digits.clone(),
            _ => Vec::new(),
        }
    }
}

fn same_digits(a: &Vec<u8>, b: &Vec<u8>) -> (r: bool)
    ensures
        r == (a@ == b@),
{
    if a.len() != b.len() {
        return false;
    }
    let mut i: usize = 0;
    while i < a.len()
        invariant
            a@.len() == b@.len(),
            0 <= i <= a@.len(),
            forall|j: int| 0 <= j < i ==> a@[j] == b@[j],
        decreases a@.len() - i,
    {
        if a[i] != b[i] {
            return false;
        }
        i = i + 1;
    }
    proof {
        assert(a@ =~= b@);
    }
    true
}

impl Clone for LexNumberValue {
    fn clone(&self) -> (r: Self)
        ensures
            r@ == self@,
    {
        match self {
            LexNumberValue::Invalid => LexNumberValue::Invalid,
            LexNumberValue::UInt(v) => LexNumberValue::UInt(*v),
            LexNumberValue::Float { int_part, frac_digits } => LexNumberValue::Float {
                int_part: *int_part,
                frac_digits: frac_digits.clone(),
            },
        }
    }
}

impl PartialEq for LexNumberValue {
    fn eq(&self, other: &Self) -> (r: bool)
        ensures
            r == (self@ == other@),
    {
        match (self, other) {
            (LexNumberValue::Invalid, LexNumberValue::Invalid) => true,
            (LexNumberValue::UInt(a), LexNumberValue::UInt(b)) => *a == *b,
            (
                LexNumberValue::Float { int_part: a, frac_digits: fa },
                LexNumberValue::Float { int_part: b, frac_digits: fb },
            ) => *a == *b && same_digits(fa, fb),
            _ => false,
        }
    }
}

impl vstd::std_specs::cmp::PartialEqSpecImpl for LexNumberValue {
    open spec fn obeys_eq_spec() -> bool {
        true
    }

    open spec fn eq_spec(&self, other: &LexNumberValue) -> bool {
        self@ == other@
    }
}

} // verus!
