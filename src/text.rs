//! The textual forms that file names are made of: separated pieces,
//! decimal and hexadecimal numbers, and hex-encoded bytes.

use vstd::prelude::*;

verus! {

/// Index of the first `c` in `s`, or its length when there is none.
pub open spec fn sep_pos(s: Seq<char>, c: char) -> nat
    decreases s.len(),
{
    if s.len() == 0 {
        0
    } else if s[0] == c {
        0
    } else {
        1 + sep_pos(s.drop_first(), c)
    }
}

/// The `k`-th piece of `s` split at every `c`, or `None` when there are no
/// more than `k` separators.
pub open spec fn piece(s: Seq<char>, c: char, k: nat) -> Option<Seq<char>>
    decreases k,
{
    let p = sep_pos(s, c);
    if k == 0 {
        Some(s.take(p as int))
    } else if p < s.len() {
        piece(s.skip(p + 1 as int), c, (k - 1) as nat)
    } else {
        None
    }
}

pub open spec fn is_dec_digit(c: char) -> bool {
    '0' <= c <= '9'
}

pub open spec fn is_hex_digit(c: char) -> bool {
    is_dec_digit(c) || ('a' <= c <= 'f') || ('A' <= c <= 'F')
}

/// The value of a decimal or hexadecimal digit.
pub open spec fn digit_value(c: char) -> nat {
    if is_dec_digit(c) {
        (c as nat - '0' as nat) as nat
    } else if 'a' <= c <= 'f' {
        (c as nat - 'a' as nat + 10) as nat
    } else {
        (c as nat - 'A' as nat + 10) as nat
    }
}

pub open spec fn all_digits(s: Seq<char>, radix: nat) -> bool {
    forall|i: int|
        0 <= i < s.len() ==> if radix == 16 {
            is_hex_digit(#[trigger] s[i])
        } else {
            is_dec_digit(s[i])
        }
}

/// The number that a string of digits writes, most significant first.
pub open spec fn digits_value(s: Seq<char>, radix: nat) -> nat
    decreases s.len(),
{
    if s.len() == 0 {
        0
    } else {
        digits_value(s.drop_last(), radix) * radix + digit_value(s.last())
    }
}

/// An unsigned number: an optional `+` and at least one digit.
pub open spec fn unsigned_text(s: Seq<char>, radix: nat) -> Option<nat> {
    let d = if s.len() > 0 && s[0] == '+' {
        s.drop_first()
    } else {
        s
    };
    if d.len() > 0 && all_digits(d, radix) {
        Some(digits_value(d, radix))
    } else {
        None
    }
}

/// What parsing a decimal `u32` accepts.
pub open spec fn u32_of_text(s: Seq<char>) -> Option<u32> {
    match unsigned_text(s, 10) {
        Some(v) => if v <= u32::MAX {
            Some(v as u32)
        } else {
            None
        },
        None => None,
    }
}

/// What parsing a hexadecimal `u64` accepts.
pub open spec fn u64_of_hex_text(s: Seq<char>) -> Option<u64> {
    match unsigned_text(s, 16) {
        Some(v) => if v <= u64::MAX {
            Some(v as u64)
        } else {
            None
        },
        None => None,
    }
}

/// What parsing a decimal `i32` accepts: an optional sign and at least one digit.
pub open spec fn i32_of_text(s: Seq<char>) -> Option<i32> {
    if s.len() > 0 && s[0] == '-' {
        let d = s.drop_first();
        if d.len() > 0 && all_digits(d, 10) && digits_value(d, 10) <= 0x8000_0000 {
            Some((0 - digits_value(d, 10)) as i32)
        } else {
            None
        }
    } else {
        match unsigned_text(s, 10) {
            Some(v) => if v <= i32::MAX {
                Some(v as i32)
            } else {
                None
            },
            None => None,
        }
    }
}

/// The lower-case digit for a value below 16.
pub open spec fn lower_digit(d: nat) -> char {
    if d < 10 {
        (('0' as nat) + d) as char
    } else {
        (('a' as nat) + d - 10) as char
    }
}

/// The upper-case digit for a value below 16.
pub open spec fn upper_digit(d: nat) -> char {
    if d < 10 {
        (('0' as nat) + d) as char
    } else {
        (('A' as nat) + d - 10) as char
    }
}

/// The shortest decimal form of `n`.
pub open spec fn dec_text(n: nat) -> Seq<char>
    decreases n,
{
    if n < 10 {
        seq![lower_digit(n)]
    } else {
        dec_text(n / 10).push(lower_digit(n % 10))
    }
}

/// The decimal form of a signed number.
pub open spec fn signed_dec_text(x: int) -> Seq<char> {
    if x < 0 {
        seq!['-'] + dec_text((0 - x) as nat)
    } else {
        dec_text(x as nat)
    }
}

/// The lower-case hexadecimal form of `n` in exactly `width` digits.
pub open spec fn hex_text(n: nat, width: nat) -> Seq<char>
    decreases width,
{
    if width == 0 {
        seq![]
    } else {
        hex_text(n / 16, (width - 1) as nat).push(lower_digit(n % 16))
    }
}

/// Bytes written as upper-case hex, two digits each.
pub open spec fn upper_hex(b: Seq<u8>) -> Seq<char> {
    Seq::new(
        2 * b.len(),
        |j: int|
            if j % 2 == 0 {
                upper_digit((b[j / 2] / 16) as nat)
            } else {
                upper_digit((b[j / 2] % 16) as nat)
            },
    )
}

/// The bytes that a hex text writes, two digits each in either case, or
/// `None` when its length is odd or a character is no hex digit.
pub open spec fn bytes_of_hex(s: Seq<char>) -> Option<Seq<u8>> {
    if s.len() % 2 == 0 && all_digits(s, 16) {
        Some(
            Seq::new(
                s.len() / 2,
                |i: int| (digit_value(s[2 * i]) * 16 + digit_value(s[2 * i + 1])) as u8,
            ),
        )
    } else {
        None
    }
}

/// `sep_pos` read off a scan: `k` is the first position holding `c`.
pub proof fn lemma_sep_pos(s: Seq<char>, c: char, k: int)
    requires
        0 <= k <= s.len(),
        forall|j: int| 0 <= j < k ==> s[j] != c,
        k == s.len() || s[k] == c,
    ensures
        sep_pos(s, c) == k,
    decreases k,
{
    if k > 0 {
        lemma_sep_pos(s.drop_first(), c, k - 1);
    }
}

/// The pieces of `s[from..to]`, read off the position `p` of its first separator.
pub proof fn lemma_piece_step(s: Seq<char>, c: char, from: int, to: int, p: int, k: nat)
    requires
        0 <= from <= p <= to <= s.len(),
        p == from + sep_pos(s.subrange(from, to), c),
    ensures
        piece(s.subrange(from, to), c, 0) == Some(s.subrange(from, p)),
        p < to ==> piece(s.subrange(from, to), c, k + 1) == piece(s.subrange(p + 1, to), c, k),
        p == to ==> piece(s.subrange(from, to), c, k + 1) is None,
{
    let sub = s.subrange(from, to);
    assert(sub.take(p - from) =~= s.subrange(from, p));
    if p < to {
        assert(sub.skip(p - from + 1) =~= s.subrange(p + 1, to));
    }
}

/// A digit written by `lower_digit` or `upper_digit` reads back as its value.
pub proof fn lemma_digit(d: nat)
    requires
        d < 16,
    ensures
        is_hex_digit(lower_digit(d)),
        is_hex_digit(upper_digit(d)),
        digit_value(lower_digit(d)) == d,
        digit_value(upper_digit(d)) == d,
        d < 10 ==> is_dec_digit(lower_digit(d)),
{
}

/// A hex digit is none of the punctuation of file names.
pub proof fn lemma_digit_not_punct(c: char)
    requires
        is_hex_digit(c),
    ensures
        c != ',' && c != ':' && c != '(' && c != ')' && c != '+' && c != '-',
{
}

/// The decimal form of `n` is a nonempty string of digits that reads back as `n`.
pub proof fn lemma_dec_text(n: nat)
    ensures
        dec_text(n).len() > 0,
        all_digits(dec_text(n), 10),
        digits_value(dec_text(n), 10) == n,
    decreases n,
{
    lemma_digit(n % 10);
    if n >= 10 {
        lemma_dec_text(n / 10);
        let t = dec_text(n / 10);
        assert(dec_text(n).drop_last() =~= t);
        assert(dec_text(n).last() == lower_digit(n % 10));
        assert((n / 10) * 10 + n % 10 == n);
        assert(all_digits(dec_text(n), 10)) by {
            assert forall|i: int| 0 <= i < dec_text(n).len() implies is_dec_digit(
                #[trigger] dec_text(n)[i],
            ) by {
                if i < t.len() {
                    assert(dec_text(n)[i] == t[i]);
                }
            }
        }
    } else {
        assert(dec_text(n).drop_last() =~= Seq::<char>::empty());
        assert(digits_value(Seq::<char>::empty(), 10) == 0);
    }
}

/// Sixteen to the power `w`.
pub open spec fn pow16(w: nat) -> nat
    decreases w,
{
    if w == 0 {
        1
    } else {
        16 * pow16((w - 1) as nat)
    }
}

/// The fixed-width hex form of `n`, where `n` fits in the width, is a
/// string of digits that reads back as `n`.
pub proof fn lemma_hex_text(n: nat, w: nat)
    requires
        n < pow16(w),
    ensures
        hex_text(n, w).len() == w,
        all_digits(hex_text(n, w), 16),
        digits_value(hex_text(n, w), 16) == n,
    decreases w,
{
    if w == 0 {
        assert(n == 0);
    } else {
        let p = pow16((w - 1) as nat);
        assert(n / 16 < p) by (nonlinear_arith)
            requires
                n < 16 * p,
        ;
        lemma_hex_text(n / 16, (w - 1) as nat);
        lemma_digit(n % 16);
        let t = hex_text(n / 16, (w - 1) as nat);
        assert(hex_text(n, w).drop_last() =~= t);
        assert forall|i: int| 0 <= i < hex_text(n, w).len() implies is_hex_digit(
            #[trigger] hex_text(n, w)[i],
        ) by {
            if i < t.len() {
                assert(hex_text(n, w)[i] == t[i]);
            }
        }
    }
}

/// Sixteen hex digits hold any `u64`.
pub proof fn lemma_pow16_16()
    ensures
        pow16(16) == 0x1_0000_0000_0000_0000,
{
    reveal_with_fuel(pow16, 17);
}

/// Bytes written in upper-case hex read back as the same bytes.
pub proof fn lemma_upper_hex(b: Seq<u8>)
    ensures
        bytes_of_hex(upper_hex(b)) == Some(b),
        all_digits(upper_hex(b), 16),
        upper_hex(b).len() == 2 * b.len(),
{
    let t = upper_hex(b);
    assert forall|j: int| 0 <= j < t.len() implies is_hex_digit(#[trigger] t[j]) by {
        lemma_digit((b[j / 2] / 16) as nat);
        lemma_digit((b[j / 2] % 16) as nat);
    }
    let r = bytes_of_hex(t)->0;
    assert forall|i: int| 0 <= i < b.len() implies r[i] == b[i] by {
        assert((2 * i) / 2 == i);
        assert((2 * i + 1) / 2 == i);
        assert((2 * i) % 2 == 0);
        assert((2 * i + 1) % 2 == 1);
        lemma_digit((b[i] / 16) as nat);
        lemma_digit((b[i] % 16) as nat);
    }
    assert(r =~= b);
}

/// No character of `s` is `c`.
pub open spec fn free_of(s: Seq<char>, c: char) -> bool {
    forall|i: int| 0 <= i < s.len() ==> s[i] != c
}

/// A string of digits holds no punctuation.
pub proof fn lemma_digits_free(s: Seq<char>, radix: nat)
    requires
        all_digits(s, radix),
    ensures
        free_of(s, ','),
        free_of(s, ':'),
        free_of(s, '('),
        free_of(s, ')'),
{
    assert forall|i: int| 0 <= i < s.len() implies s[i] != ',' && s[i] != ':' && s[i] != '('
        && s[i] != ')' by {
        if radix == 16 {
            lemma_digit_not_punct(s[i]);
        } else {
            assert(is_dec_digit(s[i]));
        }
    }
}

/// A `u32` written in decimal reads back as itself.
pub proof fn lemma_u32_text(x: u32)
    ensures
        u32_of_text(dec_text(x as nat)) == Some(x),
        free_of(dec_text(x as nat), ','),
        free_of(dec_text(x as nat), ':'),
        free_of(dec_text(x as nat), ')'),
{
    lemma_dec_text(x as nat);
    lemma_digits_free(dec_text(x as nat), 10);
    assert(is_dec_digit(dec_text(x as nat)[0]));
}

/// An `i32` written in decimal reads back as itself.
pub proof fn lemma_i32_text(x: i32)
    ensures
        i32_of_text(signed_dec_text(x as int)) == Some(x),
        free_of(signed_dec_text(x as int), ','),
        free_of(signed_dec_text(x as int), ':'),
{
    let t = signed_dec_text(x as int);
    if x < 0 {
        let d = dec_text((0 - x) as nat);
        lemma_dec_text((0 - x) as nat);
        lemma_digits_free(d, 10);
        assert(t.drop_first() =~= d);
        assert(t[0] == '-');
        assert forall|i: int| 0 <= i < t.len() implies t[i] != ',' && t[i] != ':' by {
            if i > 0 {
                assert(t[i] == d[i - 1]);
            }
        }
    } else {
        lemma_dec_text(x as nat);
        lemma_digits_free(t, 10);
        assert(is_dec_digit(t[0]));
    }
}

/// A `u64` written in sixteen hex digits reads back as itself.
pub proof fn lemma_u64_hex_text(x: u64)
    ensures
        u64_of_hex_text(hex_text(x as nat, 16)) == Some(x),
        free_of(hex_text(x as nat, 16), ','),
        free_of(hex_text(x as nat, 16), ':'),
{
    lemma_pow16_16();
    lemma_hex_text(x as nat, 16);
    lemma_digits_free(hex_text(x as nat, 16), 16);
    lemma_digit_not_punct(hex_text(x as nat, 16)[0]);
}

/// Splitting `a`, a separator and `rest`: the first piece is `a` and the
/// later ones are those of `rest`.
pub proof fn lemma_piece_concat(a: Seq<char>, c: char, rest: Seq<char>, k: nat)
    requires
        free_of(a, c),
    ensures
        piece(a + seq![c] + rest, c, 0) == Some(a),
        piece(a + seq![c] + rest, c, k + 1) == piece(rest, c, k),
{
    let s = a + seq![c] + rest;
    lemma_sep_pos(s, c, a.len() as int);
    assert(s.take(a.len() as int) =~= a);
    assert(s.skip(a.len() + 1int) =~= rest);
}

/// A text without separators is its only piece.
pub proof fn lemma_piece_whole(a: Seq<char>, c: char, k: nat)
    requires
        free_of(a, c),
    ensures
        piece(a, c, 0) == Some(a),
        piece(a, c, k + 1) is None,
{
    lemma_sep_pos(a, c, a.len() as int);
    assert(a.take(a.len() as int) =~= a);
}

/// The characters of a text, one by one.
pub fn chars_of(s: &str) -> (r: Vec<char>)
    ensures
        r@ == s@,
{
    let mut out: Vec<char> = Vec::new();
    for c in iter: s.chars()
        invariant
            iter.seq() == s@,
            out@ == iter.seq().take(iter.index() as int),
    {
        out.push(c);
    }
    out
}

} // verus!
