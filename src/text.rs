//! The lexical layer of the wire format: blanks, quoted strings with their
//! escapes, and decimal integers, each as a spec function over the remaining
//! bytes and an executable reader that agrees with it.
use vstd::prelude::*;
use vstd::utf8::{
    encode_scalar, encode_utf8, encode_utf8_valid_utf8, has_width_1_encoding, valid_utf8,
    valid_utf8_concat,
};

verus! {

pub const QUOTE: u8 = 0x22;

pub const BACKSLASH: u8 = 0x5c;

/// The bytes from position `i` to the end.
pub open spec fn rest_from(b: Seq<u8>, i: int) -> Seq<u8> {
    b.subrange(i, b.len() as int)
}

pub proof fn lemma_rest_step(b: Seq<u8>, i: int, k: int)
    requires
        0 <= i,
        0 <= k,
        i + k <= b.len(),
    ensures
        rest_from(b, i).subrange(k, rest_from(b, i).len() as int) == rest_from(b, i + k),
        k == 1 ==> rest_from(b, i).drop_first() == rest_from(b, i + 1),
{
    assert(rest_from(b, i).subrange(k, rest_from(b, i).len() as int) =~= rest_from(b, i + k));
    if k == 1 {
        assert(rest_from(b, i).drop_first() =~= rest_from(b, i + 1));
    }
}

pub open spec fn is_blank(c: u8) -> bool {
    c == 0x20 || c == 0x09 || c == 0x0a || c == 0x0d
}

/// What remains once leading blanks are dropped.
pub open spec fn skip_blanks(s: Seq<u8>) -> Seq<u8>
    decreases s.len(),
{
    if s.len() > 0 && is_blank(s[0]) {
        skip_blanks(s.drop_first())
    } else {
        s
    }
}

pub fn blanks_end(b: &Vec<u8>, i: usize) -> (r: usize)
    requires
        i <= b@.len(),
    ensures
        i <= r <= b@.len(),
        rest_from(b@, r as int) == skip_blanks(rest_from(b@, i as int)),
{
    let mut k: usize = i;
    while k < b.len() && (b[k] == 0x20 || b[k] == 0x09 || b[k] == 0x0a || b[k] == 0x0d)
        invariant
            i <= k <= b@.len(),
            skip_blanks(rest_from(b@, i as int)) == skip_blanks(rest_from(b@, k as int)),
        decreases b@.len() - k,
    {
        proof {
            lemma_rest_step(b@, k as int, 1);
        }
        k = k + 1;
    }
    k
}

pub open spec fn hex_digit(n: u8) -> u8 {
    if n < 10 {
        (0x30 + n) as u8
    } else {
        (0x61 + n - 10) as u8
    }
}

/// How one byte stands inside a quoted string.
pub open spec fn escape_byte(c: u8) -> Seq<u8> {
    if c == QUOTE {
        seq![BACKSLASH, QUOTE]
    } else if c == BACKSLASH {
        seq![BACKSLASH, BACKSLASH]
    } else if c == 0x08 {
        seq![BACKSLASH, 0x62u8]
    } else if c == 0x09 {
        seq![BACKSLASH, 0x74u8]
    } else if c == 0x0a {
        seq![BACKSLASH, 0x6eu8]
    } else if c == 0x0c {
        seq![BACKSLASH, 0x66u8]
    } else if c == 0x0d {
        seq![BACKSLASH, 0x72u8]
    } else if c < 0x20 {
        seq![BACKSLASH, 0x75u8, 0x30u8, 0x30u8, hex_digit(c / 16), hex_digit(c % 16)]
    } else {
        seq![c]
    }
}

/// The escaped form of a byte string, without its quotes.
pub open spec fn escape(s: Seq<u8>) -> Seq<u8>
    decreases s.len(),
{
    if s.len() == 0 {
        seq![]
    } else {
        escape_byte(s[0]) + escape(s.drop_first())
    }
}

/// A byte string as a quoted string token.
pub open spec fn quoted(s: Seq<u8>) -> Seq<u8> {
    seq![QUOTE] + escape(s) + seq![QUOTE]
}

pub proof fn lemma_escape_concat(a: Seq<u8>, b: Seq<u8>)
    ensures
        escape(a + b) == escape(a) + escape(b),
    decreases a.len(),
{
    if a.len() == 0 {
        assert(a + b =~= b);
        assert(escape(a) + escape(b) =~= escape(b));
    } else {
        assert((a + b).drop_first() =~= a.drop_first() + b);
        lemma_escape_concat(a.drop_first(), b);
        assert(escape(a + b) =~= escape(a) + escape(b));
    }
}

pub proof fn lemma_escape_push(a: Seq<u8>, c: u8)
    ensures
        escape(a.push(c)) == escape(a) + escape_byte(c),
{
    let one = seq![c];
    assert(a.push(c) =~= a + one);
    lemma_escape_concat(a, one);
    assert(one.drop_first() =~= Seq::<u8>::empty());
    assert(one[0] == c);
    assert(escape(one.drop_first()) =~= Seq::<u8>::empty());
    assert(escape(one) =~= escape_byte(c));
}

pub fn hex_digit_exec(n: u8) -> (r: u8)
    requires
        n < 16,
    ensures
        r == hex_digit(n),
{
    if n < 10 {
        0x30 + n
    } else {
        0x61 + n - 10
    }
}

/// Appends the escaped form of `s` to `out`.
pub fn push_escaped(out: &mut Vec<u8>, s: &[u8])
    ensures
        final(out)@ == old(out)@ + escape(s@),
{
    let mut i: usize = 0;
    while i < s.len()
        invariant
            i <= s@.len(),
            out@ == old(out)@ + escape(s@.take(i as int)),
        decreases s@.len() - i,
    {
        let c = s[i];
        proof {
            assert(s@.take(i as int + 1) =~= s@.take(i as int).push(c));
            lemma_escape_push(s@.take(i as int), c);
        }
        if c == QUOTE || c == BACKSLASH {
            out.push(BACKSLASH);
            out.push(c);
        } else if c == 0x08 {
            out.push(BACKSLASH);
            out.push(0x62);
        } else if c == 0x09 {
            out.push(BACKSLASH);
            out.push(0x74);
        } else if c == 0x0a {
            out.push(BACKSLASH);
            out.push(0x6e);
        } else if c == 0x0c {
            out.push(BACKSLASH);
            out.push(0x66);
        } else if c == 0x0d {
            out.push(BACKSLASH);
            out.push(0x72);
        } else if c < 0x20 {
            out.push(BACKSLASH);
            out.push(0x75);
            out.push(0x30);
            out.push(0x30);
            out.push(hex_digit_exec(c / 16));
            out.push(hex_digit_exec(c % 16));
        } else {
            out.push(c);
        }
        proof {
            assert(out@ =~= old(out)@ + escape(s@.take(i as int + 1)));
        }
        i = i + 1;
    }
    proof {
        assert(s@.take(s@.len() as int) =~= s@);
    }
}

/// The value of a hexadecimal digit, or -1 for any other byte.
pub open spec fn hex_value(c: u8) -> int {
    if 0x30 <= c <= 0x39 {
        c - 0x30
    } else if 0x61 <= c <= 0x66 {
        c - 0x61 + 10
    } else if 0x41 <= c <= 0x46 {
        c - 0x41 + 10
    } else {
        -1
    }
}

pub open spec fn is_hex4(t: Seq<u8>) -> bool {
    t.len() >= 5 && hex_value(t[1]) >= 0 && hex_value(t[2]) >= 0 && hex_value(t[3]) >= 0
        && hex_value(t[4]) >= 0
}

pub open spec fn hex4_value(t: Seq<u8>) -> int {
    hex_value(t[1]) * 4096 + hex_value(t[2]) * 256 + hex_value(t[3]) * 16 + hex_value(t[4])
}

pub open spec fn is_surrogate(cp: int) -> bool {
    0xD800 <= cp <= 0xDFFF
}

/// The escape that follows a backslash: the code point it stands for, and
/// the bytes after it. Escapes of surrogate code points are refused.
pub open spec fn escape_seq(t: Seq<u8>) -> Option<(int, Seq<u8>)> {
    if t.len() == 0 {
        None
    } else if t[0] == QUOTE || t[0] == BACKSLASH || t[0] == 0x2f {
        Some((t[0] as int, t.drop_first()))
    } else if t[0] == 0x62 {
        Some((0x08, t.drop_first()))
    } else if t[0] == 0x74 {
        Some((0x09, t.drop_first()))
    } else if t[0] == 0x6e {
        Some((0x0a, t.drop_first()))
    } else if t[0] == 0x66 {
        Some((0x0c, t.drop_first()))
    } else if t[0] == 0x72 {
        Some((0x0d, t.drop_first()))
    } else if t[0] == 0x75 && is_hex4(t) && !is_surrogate(hex4_value(t)) {
        Some((hex4_value(t), t.subrange(5, t.len() as int)))
    } else {
        None
    }
}

/// The UTF-8 bytes of a code point below 0x10000.
pub open spec fn code_point_bytes(cp: int) -> Seq<u8> {
    if cp < 0x80 {
        seq![cp as u8]
    } else if cp < 0x800 {
        seq![(0xC0 + cp / 64) as u8, (0x80 + cp % 64) as u8]
    } else {
        seq![(0xE0 + cp / 4096) as u8, (0x80 + (cp / 64) % 64) as u8, (0x80 + cp % 64) as u8]
    }
}

pub open spec fn prepend(c: Seq<u8>, r: Option<(Seq<u8>, Seq<u8>)>) -> Option<(Seq<u8>, Seq<u8>)> {
    match r {
        Some((x, rest)) => Some((c + x, rest)),
        None => None,
    }
}

/// The content of a quoted string whose opening quote has been read, and
/// the bytes after its closing quote.
pub open spec fn string_body(s: Seq<u8>) -> Option<(Seq<u8>, Seq<u8>)>
    decreases s.len(),
{
    if s.len() == 0 {
        None
    } else if s[0] == QUOTE {
        Some((seq![], s.drop_first()))
    } else if s[0] == BACKSLASH {
        match escape_seq(s.drop_first()) {
            Some((cp, rest)) => if rest.len() < s.len() {
                prepend(code_point_bytes(cp), string_body(rest))
            } else {
                None
            },
            None => None,
        }
    } else if s[0] < 0x20 {
        None
    } else {
        prepend(seq![s[0]], string_body(s.drop_first()))
    }
}

/// A quoted string at the front of `s`: its content and what follows it.
pub open spec fn string_token(s: Seq<u8>) -> Option<(Seq<u8>, Seq<u8>)> {
    if s.len() > 0 && s[0] == QUOTE {
        string_body(s.drop_first())
    } else {
        None
    }
}

fn hex_value_exec(c: u8) -> (r: Option<u32>)
    ensures
        match r {
            Some(v) => hex_value(c) == v as int && v < 16,
            None => hex_value(c) == -1,
        },
{
    if 0x30 <= c && c <= 0x39 {
        Some((c - 0x30) as u32)
    } else if 0x61 <= c && c <= 0x66 {
        Some((c - 0x61 + 10) as u32)
    } else if 0x41 <= c && c <= 0x46 {
        Some((c - 0x41 + 10) as u32)
    } else {
        None
    }
}

/// Reads the escape that starts at `k`, just after a backslash.
fn read_escape(b: &Vec<u8>, k: usize) -> (r: Option<(u32, usize)>)
    requires
        k <= b@.len(),
    ensures
        match r {
            Some((cp, j)) => k < j <= b@.len() && cp < 0x10000 && !is_surrogate(cp as int)
                && escape_seq(rest_from(b@, k as int)) == Some((cp as int, rest_from(b@, j as int))),
            None => escape_seq(rest_from(b@, k as int)) is None,
        },
{
    proof {
        if k < b@.len() {
            lemma_rest_step(b@, k as int, 1);
        }
    }
    if k >= b.len() {
        return None;
    }
    let c = b[k];
    if c == QUOTE || c == BACKSLASH || c == 0x2f {
        Some((c as u32, k + 1))
    } else if c == 0x62 {
        Some((0x08, k + 1))
    } else if c == 0x74 {
        Some((0x09, k + 1))
    } else if c == 0x6e {
        Some((0x0a, k + 1))
    } else if c == 0x66 {
        Some((0x0c, k + 1))
    } else if c == 0x72 {
        Some((0x0d, k + 1))
    } else if c == 0x75 && b.len() - k >= 5 {
        let h1 = hex_value_exec(b[k + 1]);
        let h2 = hex_value_exec(b[k + 2]);
        let h3 = hex_value_exec(b[k + 3]);
        let h4 = hex_value_exec(b[k + 4]);
        match (h1, h2, h3, h4) {
            (Some(d1), Some(d2), Some(d3), Some(d4)) => {
                let cp: u32 = d1 * 4096 + d2 * 256 + d3 * 16 + d4;
                if 0xD800 <= cp && cp <= 0xDFFF {
                    None
                } else {
                    proof {
                        lemma_rest_step(b@, k as int, 5);
                    }
                    Some((cp, k + 5))
                }
            },
            _ => None,
        }
    } else {
        None
    }
}

/// Appends the UTF-8 bytes of a code point below 0x10000.
fn push_code_point(out: &mut Vec<u8>, cp: u32)
    requires
        cp < 0x10000,
    ensures
        final(out)@ == old(out)@ + code_point_bytes(cp as int),
{
    if cp < 0x80 {
        out.push(cp as u8);
    } else if cp < 0x800 {
        out.push((0xC0 + cp / 64) as u8);
        out.push((0x80 + cp % 64) as u8);
    } else {
        out.push((0xE0 + cp / 4096) as u8);
        out.push((0x80 + (cp / 64) % 64) as u8);
        out.push((0x80 + cp % 64) as u8);
    }
    assert(out@ =~= old(out)@ + code_point_bytes(cp as int));
}

/// Reads the content of a quoted string whose opening quote stands just
/// before `i`; returns it with the position after the closing quote.
pub fn read_string_body(b: &Vec<u8>, i: usize) -> (r: Option<(Vec<u8>, usize)>)
    requires
        i <= b@.len(),
    ensures
        match r {
            Some((c, j)) => i < j <= b@.len() && string_body(rest_from(b@, i as int)) == Some(
                (c@, rest_from(b@, j as int)),
            ),
            None => string_body(rest_from(b@, i as int)) is None,
        },
{
    let mut out: Vec<u8> = Vec::new();
    let mut k: usize = i;
    loop
        invariant
            i <= k <= b@.len(),
            string_body(rest_from(b@, i as int)) == prepend(
                out@,
                string_body(rest_from(b@, k as int)),
            ),
        decreases b@.len() - k,
    {
        if k >= b.len() {
            return None;
        }
        let c = b[k];
        proof {
            lemma_rest_step(b@, k as int, 1);
        }
        if c == QUOTE {
            proof {
                assert(out@ + seq![] =~= out@);
            }
            return Some((out, k + 1));
        } else if c == BACKSLASH {
            match read_escape(b, k + 1) {
                None => {
                    return None;
                },
                Some((cp, j)) => {
                    let ghost before = out@;
                    push_code_point(&mut out, cp);
                    proof {
                        let x = string_body(rest_from(b@, j as int));
                        match x {
                            Some((y, rest)) => {
                                assert(before + (code_point_bytes(cp as int) + y) =~= out@ + y);
                            },
                            None => {},
                        }
                    }
                    k = j;
                },
            }
        } else if c < 0x20 {
            return None;
        } else {
            let ghost before = out@;
            out.push(c);
            proof {
                let x = string_body(rest_from(b@, k + 1));
                match x {
                    Some((y, rest)) => {
                        assert(before + (seq![c] + y) =~= out@ + y);
                    },
                    None => {},
                }
            }
            k = k + 1;
        }
    }
}

proof fn lemma_hex_digit_value(n: u8)
    requires
        n < 16,
    ensures
        hex_value(hex_digit(n)) == n as int,
{
}

/// An escaped byte string followed by a closing quote reads back as itself.
pub proof fn lemma_string_body_escape(c: Seq<u8>, t: Seq<u8>)
    ensures
        string_body(escape(c) + seq![QUOTE] + t) == Some((c, t)),
    decreases c.len(),
{
    let s = escape(c) + seq![QUOTE] + t;
    if c.len() == 0 {
        assert(s =~= seq![QUOTE] + t);
        assert(s.drop_first() =~= t);
    } else {
        let c0 = c[0];
        let tail = escape(c.drop_first()) + seq![QUOTE] + t;
        lemma_string_body_escape(c.drop_first(), t);
        assert(s =~= escape_byte(c0) + tail);
        assert(seq![c0] + c.drop_first() =~= c);
        if c0 == QUOTE || c0 == BACKSLASH || c0 == 0x08 || c0 == 0x09 || c0 == 0x0a || c0 == 0x0c
            || c0 == 0x0d {
            assert(s.drop_first().drop_first() =~= tail);
            assert(code_point_bytes(c0 as int) =~= seq![c0]);
        } else if c0 < 0x20 {
            let e = s.drop_first();
            lemma_hex_digit_value(c0 / 16);
            lemma_hex_digit_value(c0 % 16);
            assert(e[0] == 0x75u8);
            assert(e[1] == 0x30u8);
            assert(e[2] == 0x30u8);
            assert(e[3] == hex_digit(c0 / 16));
            assert(e[4] == hex_digit(c0 % 16));
            assert(hex4_value(e) == c0 as int);
            assert(e.subrange(5, e.len() as int) =~= tail);
            assert(code_point_bytes(c0 as int) =~= seq![c0]);
        } else {
            assert(s.drop_first() =~= tail);
        }
    }
}

/// A quoted byte string reads back as itself.
pub proof fn lemma_string_token_quoted(c: Seq<u8>, t: Seq<u8>)
    ensures
        string_token(quoted(c) + t) == Some((c, t)),
{
    let s = quoted(c) + t;
    assert(s.drop_first() =~= escape(c) + seq![QUOTE] + t);
    lemma_string_body_escape(c, t);
}

pub open spec fn is_digit(c: u8) -> bool {
    0x30 <= c <= 0x39
}

/// The number of decimal digits at the front of `s`.
pub open spec fn digit_run(s: Seq<u8>) -> nat
    decreases s.len(),
{
    if s.len() > 0 && is_digit(s[0]) {
        1 + digit_run(s.drop_first())
    } else {
        0
    }
}

/// The value of a string of decimal digits, most significant first.
pub open spec fn digits_value(d: Seq<u8>) -> nat
    decreases d.len(),
{
    if d.len() == 0 {
        0
    } else {
        digits_value(d.drop_last()) * 10 + (d.last() - 0x30) as nat
    }
}

/// An integer at the front of `s`: an optional minus sign and at least one
/// digit; its value and what follows it.
pub open spec fn int_token(s: Seq<u8>) -> Option<(int, Seq<u8>)> {
    let neg = s.len() > 0 && s[0] == 0x2d;
    let t = if neg {
        s.drop_first()
    } else {
        s
    };
    let n = digit_run(t);
    if n == 0 {
        None
    } else {
        let v = digits_value(t.take(n as int));
        Some((if neg {
            -v
        } else {
            v as int
        }, t.skip(n as int)))
    }
}

/// The shortest decimal form of a natural number.
pub open spec fn decimal(n: nat) -> Seq<u8>
    decreases n,
{
    if n < 10 {
        seq![(0x30 + n) as u8]
    } else {
        decimal(n / 10).push((0x30 + n % 10) as u8)
    }
}

/// The decimal form of an integer, with a minus sign when it is negative.
pub open spec fn signed_decimal(v: int) -> Seq<u8> {
    if v < 0 {
        seq![0x2du8] + decimal((-v) as nat)
    } else {
        decimal(v as nat)
    }
}

pub proof fn lemma_decimal_digits(n: nat)
    ensures
        decimal(n).len() > 0,
        forall|i: int| 0 <= i < decimal(n).len() ==> is_digit(#[trigger] decimal(n)[i]),
        digits_value(decimal(n)) == n,
    decreases n,
{
    if n >= 10 {
        lemma_decimal_digits(n / 10);
        let d = decimal(n);
        assert(d.drop_last() =~= decimal(n / 10));
        assert(d.last() == (0x30 + n % 10) as u8);
        assert((d.last() - 0x30) as nat == n % 10);
        assert(n == (n / 10) * 10 + n % 10) by (nonlinear_arith);
        assert(digits_value(d) == digits_value(d.drop_last()) * 10 + (d.last() - 0x30) as nat);
    } else {
        let d = decimal(n);
        assert(d.drop_last() =~= Seq::<u8>::empty());
        assert(digits_value(d.drop_last()) == 0);
        assert(d.last() == (0x30 + n) as u8);
        assert(digits_value(d) == digits_value(d.drop_last()) * 10 + (d.last() - 0x30) as nat);
    }
}

proof fn lemma_digit_run_concat(x: Seq<u8>, t: Seq<u8>)
    requires
        forall|i: int| 0 <= i < x.len() ==> is_digit(#[trigger] x[i]),
        t.len() == 0 || !is_digit(t[0]),
    ensures
        digit_run(x + t) == x.len(),
    decreases x.len(),
{
    if x.len() > 0 {
        assert((x + t).drop_first() =~= x.drop_first() + t);
        lemma_digit_run_concat(x.drop_first(), t);
    } else {
        assert(x + t =~= t);
    }
}

/// A signed decimal followed by a byte that is no digit reads back as itself.
pub proof fn lemma_int_token_decimal(v: int, t: Seq<u8>)
    requires
        t.len() == 0 || !is_digit(t[0]),
    ensures
        int_token(signed_decimal(v) + t) == Some((v, t)),
{
    let s = signed_decimal(v) + t;
    let m: nat = if v < 0 {
        (-v) as nat
    } else {
        v as nat
    };
    let d = decimal(m);
    lemma_decimal_digits(m);
    lemma_digit_run_concat(d, t);
    let body = d + t;
    if v < 0 {
        assert(s.drop_first() =~= body);
    } else {
        assert(s =~= body);
    }
    assert(body.take(d.len() as int) =~= d);
    assert(body.skip(d.len() as int) =~= t);
}

/// Appends the decimal form of `n`.
pub fn push_decimal(out: &mut Vec<u8>, n: u64)
    ensures
        final(out)@ == old(out)@ + decimal(n as nat),
    decreases n,
{
    if n >= 10 {
        push_decimal(out, n / 10);
    }
    out.push((0x30 + n % 10) as u8);
    proof {
        if n >= 10 {
            assert(out@ =~= old(out)@ + decimal(n as nat));
        } else {
            assert(out@ =~= old(out)@ + decimal(n as nat));
        }
    }
}

/// Appends the signed decimal form of `v`.
pub fn push_signed_decimal(out: &mut Vec<u8>, v: i64)
    ensures
        final(out)@ == old(out)@ + signed_decimal(v as int),
{
    if v < 0 {
        out.push(0x2d);
        let m: u64 = (-(v as i128)) as u64;
        push_decimal(out, m);
        assert(out@ =~= old(out)@ + signed_decimal(v as int));
    } else {
        push_decimal(out, v as u64);
    }
}

proof fn lemma_digit_run_len(s: Seq<u8>)
    ensures
        digit_run(s) <= s.len(),
    decreases s.len(),
{
    if s.len() > 0 && is_digit(s[0]) {
        lemma_digit_run_len(s.drop_first());
    }
}

proof fn lemma_digits_value_grows(d: Seq<u8>, k: int, m: int)
    requires
        0 <= k <= m <= d.len(),
    ensures
        digits_value(d.take(m)) >= digits_value(d.take(k)),
    decreases m - k,
{
    if k < m {
        lemma_digits_value_grows(d, k, m - 1);
        assert(d.take(m).drop_last() =~= d.take(m - 1));
    }
}

/// Reads an integer at `i` that must lie in `lo..=hi`; returns it with the
/// position after it.
pub fn read_int(b: &Vec<u8>, i: usize, lo: i64, hi: i64) -> (r: Option<(i64, usize)>)
    requires
        i <= b@.len(),
        lo <= 0 <= hi,
    ensures
        match r {
            Some((v, j)) => i < j <= b@.len() && lo <= v <= hi && int_token(rest_from(b@, i as int))
                == Some((v as int, rest_from(b@, j as int))),
            None => match int_token(rest_from(b@, i as int)) {
                Some((v, _)) => v < lo || v > hi,
                None => true,
            },
        },
{
    let neg = i < b.len() && b[i] == 0x2d;
    let start: usize = if neg {
        i + 1
    } else {
        i
    };
    proof {
        if neg {
            lemma_rest_step(b@, i as int, 1);
        }
    }
    let ghost t = rest_from(b@, start as int);
    let bound: u128 = 0x8000_0000_0000_0000;
    let mut acc: u128 = 0;
    let mut k: usize = start;
    while k < b.len() && 0x30 <= b[k] && b[k] <= 0x39
        invariant
            start <= k <= b@.len(),
            t == rest_from(b@, start as int),
            neg == (rest_from(b@, i as int).len() > 0 && rest_from(b@, i as int)[0] == 0x2d),
            t == if neg {
                rest_from(b@, i as int).drop_first()
            } else {
                rest_from(b@, i as int)
            },
            digit_run(t) == (k - start) + digit_run(rest_from(b@, k as int)),
            acc as int == digits_value(t.take(k - start)),
            bound == 0x8000_0000_0000_0000,
            acc <= bound,
        decreases b@.len() - k,
    {
        proof {
            lemma_rest_step(b@, k as int, 1);
            assert(t.take(k - start + 1).drop_last() =~= t.take(k - start));
            assert(t.take(k - start + 1).last() == b@[k as int]);
        }
        let next: u128 = acc * 10 + (b[k] - 0x30) as u128;
        assert(next as int == digits_value(t.take(k - start + 1)));
        if next > bound {
            proof {
                lemma_digit_run_len(t);
                assert(digit_run(rest_from(b@, k as int)) >= 1);
                lemma_digits_value_grows(t, k - start + 1, digit_run(t) as int);
            }
            return None;
        }
        acc = next;
        k = k + 1;
    }
    if k == start {
        return None;
    }
    proof {
        assert(t.skip(k - start) =~= rest_from(b@, k as int));
    }
    let v: i128 = if neg {
        -(acc as i128)
    } else {
        acc as i128
    };
    if v < lo as i128 || v > hi as i128 {
        return None;
    }
    Some((v as i64, k))
}

/// `lit` stands at the front of `s`.
pub open spec fn literal_at(s: Seq<u8>, lit: Seq<u8>) -> bool {
    s.len() >= lit.len() && s.take(lit.len() as int) == lit
}

pub open spec fn lit_true() -> Seq<u8> {
    seq![0x74u8, 0x72u8, 0x75u8, 0x65u8]
}

pub open spec fn lit_false() -> Seq<u8> {
    seq![0x66u8, 0x61u8, 0x6cu8, 0x73u8, 0x65u8]
}

pub open spec fn lit_null() -> Seq<u8> {
    seq![0x6eu8, 0x75u8, 0x6cu8, 0x6cu8]
}

/// Whether `lit` stands at position `i`.
pub fn literal_at_exec(b: &Vec<u8>, i: usize, lit: &Vec<u8>) -> (r: bool)
    requires
        i <= b@.len(),
    ensures
        r == literal_at(rest_from(b@, i as int), lit@),
        r ==> rest_from(b@, i as int).skip(lit@.len() as int) == rest_from(b@, i + lit@.len()),
{
    if b.len() - i < lit.len() {
        return false;
    }
    let n = b.len();
    let mut k: usize = 0;
    while k < lit.len()
        invariant
            n == b@.len(),
            k <= lit@.len(),
            i + lit@.len() <= b@.len(),
            forall|m: int| 0 <= m < k ==> b@[i + m] == lit@[m],
        decreases lit@.len() - k,
    {
        if b[i + k] != lit[k] {
            assert(rest_from(b@, i as int).take(lit@.len() as int)[k as int] != lit@[k as int]);
            return false;
        }
        k = k + 1;
    }
    assert(rest_from(b@, i as int).take(lit@.len() as int) =~= lit@);
    assert(rest_from(b@, i as int).skip(lit@.len() as int) =~= rest_from(b@, i + lit@.len()));
    true
}

pub open spec fn is_number_byte(c: u8) -> bool {
    is_digit(c) || c == 0x2d || c == 0x2b || c == 0x2e || c == 0x65 || c == 0x45
}

/// The number of bytes at the front of `s` that may belong to a number.
pub open spec fn number_run(s: Seq<u8>) -> nat
    decreases s.len(),
{
    if s.len() > 0 && is_number_byte(s[0]) {
        1 + number_run(s.drop_first())
    } else {
        0
    }
}

/// The deepest nesting of arrays and objects that a skipped value may have.
pub const MAX_DEPTH: usize = 32;

/// Passes over one value of any shape (string, number, literal, array or
/// object) at the front of `s`, nested at most `depth` deep; what follows it.
pub open spec fn skip_value(s: Seq<u8>, depth: nat) -> Option<Seq<u8>>
    decreases depth, s.len(), 0nat,
{
    if s.len() == 0 {
        None
    } else if s[0] == QUOTE {
        match string_token(s) {
            Some((_, r)) => Some(r),
            None => None,
        }
    } else if s[0] == 0x7b || s[0] == 0x5b {
        if depth == 0 {
            None
        } else {
            let t = skip_blanks(s.drop_first());
            let close: u8 = if s[0] == 0x7b {
                0x7d
            } else {
                0x5d
            };
            if t.len() > 0 && t[0] == close {
                Some(t.drop_first())
            } else if s[0] == 0x7b {
                skip_members(t, (depth - 1) as nat)
            } else {
                skip_elements(t, (depth - 1) as nat)
            }
        }
    } else if literal_at(s, lit_true()) {
        Some(s.skip(4))
    } else if literal_at(s, lit_false()) {
        Some(s.skip(5))
    } else if literal_at(s, lit_null()) {
        Some(s.skip(4))
    } else if is_number_byte(s[0]) {
        Some(s.skip(number_run(s) as int))
    } else {
        None
    }
}

/// Passes over the members of an object up to and including its closing brace.
pub open spec fn skip_members(s: Seq<u8>, depth: nat) -> Option<Seq<u8>>
    decreases depth, s.len(), 1nat,
{
    match string_token(s) {
        None => None,
        Some((_, r1)) => {
            let r2 = skip_blanks(r1);
            if !(r2.len() > 0 && r2[0] == 0x3a) {
                None
            } else {
                let r3 = skip_blanks(r2.drop_first());
                if r3.len() >= s.len() {
                    None
                } else {
                    match skip_value(r3, depth) {
                        None => None,
                        Some(r4) => {
                            let r5 = skip_blanks(r4);
                            if r5.len() > 0 && r5[0] == 0x7d {
                                Some(r5.drop_first())
                            } else if r5.len() > 0 && r5[0] == 0x2c {
                                let r6 = skip_blanks(r5.drop_first());
                                if r6.len() < s.len() {
                                    skip_members(r6, depth)
                                } else {
                                    None
                                }
                            } else {
                                None
                            }
                        },
                    }
                }
            }
        },
    }
}

/// Passes over the elements of an array up to and including its closing bracket.
pub open spec fn skip_elements(s: Seq<u8>, depth: nat) -> Option<Seq<u8>>
    decreases depth, s.len(), 1nat,
{
    match skip_value(s, depth) {
        None => None,
        Some(r1) => {
            let r2 = skip_blanks(r1);
            if r2.len() > 0 && r2[0] == 0x5d {
                Some(r2.drop_first())
            } else if r2.len() > 0 && r2[0] == 0x2c {
                let r3 = skip_blanks(r2.drop_first());
                if r3.len() < s.len() {
                    skip_elements(r3, depth)
                } else {
                    None
                }
            } else {
                None
            }
        },
    }
}

/// Reads a quoted string at `i`; returns its content and the position after it.
pub fn read_string(b: &Vec<u8>, i: usize) -> (r: Option<(Vec<u8>, usize)>)
    requires
        i <= b@.len(),
    ensures
        match r {
            Some((c, j)) => i < j <= b@.len() && string_token(rest_from(b@, i as int)) == Some(
                (c@, rest_from(b@, j as int)),
            ),
            None => string_token(rest_from(b@, i as int)) is None,
        },
{
    if i < b.len() && b[i] == QUOTE {
        proof {
            lemma_rest_step(b@, i as int, 1);
        }
        read_string_body(b, i + 1)
    } else {
        None
    }
}

/// Passes over one value at `i`; returns the position after it.
pub fn skip_value_exec(b: &Vec<u8>, i: usize, depth: usize) -> (r: Option<usize>)
    requires
        i <= b@.len(),
    ensures
        match r {
            Some(j) => i < j <= b@.len() && skip_value(rest_from(b@, i as int), depth as nat)
                == Some(rest_from(b@, j as int)),
            None => skip_value(rest_from(b@, i as int), depth as nat) is None,
        },
    decreases depth, b@.len() - i, 0nat,
{
    if i >= b.len() {
        return None;
    }
    let c = b[i];
    proof {
        lemma_rest_step(b@, i as int, 1);
    }
    if c == QUOTE {
        match read_string(b, i) {
            Some((_, j)) => Some(j),
            None => None,
        }
    } else if c == 0x7b || c == 0x5b {
        if depth == 0 {
            return None;
        }
        let t = blanks_end(b, i + 1);
        let close: u8 = if c == 0x7b {
            0x7d
        } else {
            0x5d
        };
        if t < b.len() && b[t] == close {
            proof {
                lemma_rest_step(b@, t as int, 1);
            }
            Some(t + 1)
        } else if c == 0x7b {
            skip_members_exec(b, t, depth - 1)
        } else {
            skip_elements_exec(b, t, depth - 1)
        }
    } else {
        skip_scalar(b, i)
    }
}

/// Passes over a literal or a number at `i`; returns the position after it.
fn skip_scalar(b: &Vec<u8>, i: usize) -> (r: Option<usize>)
    requires
        i < b@.len(),
        b@[i as int] != QUOTE && b@[i as int] != 0x7b && b@[i as int] != 0x5b,
    ensures
        match r {
            Some(j) => i < j <= b@.len() && skip_value(rest_from(b@, i as int), 0) == Some(
                rest_from(b@, j as int),
            ),
            None => skip_value(rest_from(b@, i as int), 0) is None,
        },
{
    let c = b[i];
    let n = b.len();
    let lt: Vec<u8> = vec![0x74u8, 0x72, 0x75, 0x65];
    let lf: Vec<u8> = vec![0x66u8, 0x61, 0x6c, 0x73, 0x65];
    let ln: Vec<u8> = vec![0x6eu8, 0x75, 0x6c, 0x6c];
    proof {
        assert(lt@ =~= lit_true());
        assert(lf@ =~= lit_false());
        assert(ln@ =~= lit_null());
        assert(rest_from(b@, i as int).len() == b@.len() - i);
    }
    if literal_at_exec(b, i, &lt) {
        Some(i + 4)
    } else if literal_at_exec(b, i, &lf) {
        Some(i + 5)
    } else if literal_at_exec(b, i, &ln) {
        Some(i + 4)
    } else if c == 0x2d || c == 0x2b || c == 0x2e || c == 0x65 || c == 0x45 || (0x30 <= c && c
        <= 0x39) {
        let mut k: usize = i;
        while k < b.len() && (b[k] == 0x2d || b[k] == 0x2b || b[k] == 0x2e || b[k] == 0x65 || b[k]
            == 0x45 || (0x30 <= b[k] && b[k] <= 0x39))
            invariant
                i <= k <= b@.len(),
                number_run(rest_from(b@, i as int)) == (k - i) + number_run(rest_from(b@, k as int)),
            decreases b@.len() - k,
        {
            proof {
                lemma_rest_step(b@, k as int, 1);
            }
            k = k + 1;
        }
        proof {
            lemma_rest_step(b@, i as int, k - i);
        }
        Some(k)
    } else {
        None
    }
}

/// Passes over the members of an object at `i`, through its closing brace.
pub fn skip_members_exec(b: &Vec<u8>, i: usize, depth: usize) -> (r: Option<usize>)
    requires
        i <= b@.len(),
    ensures
        match r {
            Some(j) => i < j <= b@.len() && skip_members(rest_from(b@, i as int), depth as nat)
                == Some(rest_from(b@, j as int)),
            None => skip_members(rest_from(b@, i as int), depth as nat) is None,
        },
    decreases depth, b@.len() - i, 1nat,
{
    let j1 = match read_string(b, i) {
        Some((_, j)) => j,
        None => {
            return None;
        },
    };
    let j2 = blanks_end(b, j1);
    if !(j2 < b.len() && b[j2] == 0x3a) {
        return None;
    }
    proof {
        lemma_rest_step(b@, j2 as int, 1);
    }
    let j3 = blanks_end(b, j2 + 1);
    let j4 = match skip_value_exec(b, j3, depth) {
        Some(j) => j,
        None => {
            return None;
        },
    };
    let j5 = blanks_end(b, j4);
    if j5 < b.len() && b[j5] == 0x7d {
        proof {
            lemma_rest_step(b@, j5 as int, 1);
        }
        Some(j5 + 1)
    } else if j5 < b.len() && b[j5] == 0x2c {
        proof {
            lemma_rest_step(b@, j5 as int, 1);
        }
        let j6 = blanks_end(b, j5 + 1);
        skip_members_exec(b, j6, depth)
    } else {
        None
    }
}

/// Passes over the elements of an array at `i`, through its closing bracket.
pub fn skip_elements_exec(b: &Vec<u8>, i: usize, depth: usize) -> (r: Option<usize>)
    requires
        i <= b@.len(),
    ensures
        match r {
            Some(j) => i < j <= b@.len() && skip_elements(rest_from(b@, i as int), depth as nat)
                == Some(rest_from(b@, j as int)),
            None => skip_elements(rest_from(b@, i as int), depth as nat) is None,
        },
    decreases depth, b@.len() - i, 1nat,
{
    let j1 = match skip_value_exec(b, i, depth) {
        Some(j) => j,
        None => {
            return None;
        },
    };
    let j2 = blanks_end(b, j1);
    if j2 < b.len() && b[j2] == 0x5d {
        proof {
            lemma_rest_step(b@, j2 as int, 1);
        }
        Some(j2 + 1)
    } else if j2 < b.len() && b[j2] == 0x2c {
        proof {
            lemma_rest_step(b@, j2 as int, 1);
        }
        let j3 = blanks_end(b, j2 + 1);
        skip_elements_exec(b, j3, depth)
    } else {
        None
    }
}

pub open spec fn all_ascii(s: Seq<u8>) -> bool {
    forall|i: int| 0 <= i < s.len() ==> #[trigger] s[i] < 0x80
}

pub proof fn lemma_ascii_valid(s: Seq<u8>)
    requires
        all_ascii(s),
    ensures
        valid_utf8(s),
    decreases s.len(),
{
    broadcast use valid_utf8_concat;

    if s.len() > 0 {
        let b = s[0];
        let one = seq![b];
        assert((b & 0x7F) as u32 <= 0x7f) by (bit_vector);
        assert(one.subrange(1, 1) =~= Seq::<u8>::empty());
        assert(valid_utf8(Seq::<u8>::empty()));
        assert(valid_utf8(one));
        lemma_ascii_valid(s.drop_first());
        assert(one + s.drop_first() =~= s);
    }
}

proof fn lemma_escape_byte_ascii(c: u8)
    requires
        c < 0x80,
    ensures
        all_ascii(escape_byte(c)),
{
}

pub proof fn lemma_escape_ascii(s: Seq<u8>)
    requires
        all_ascii(s),
    ensures
        all_ascii(escape(s)),
    decreases s.len(),
{
    if s.len() > 0 {
        lemma_escape_byte_ascii(s[0]);
        lemma_escape_ascii(s.drop_first());
        let a = escape_byte(s[0]);
        let b = escape(s.drop_first());
        assert forall|i: int| 0 <= i < (a + b).len() implies #[trigger] (a + b)[i] < 0x80 by {
            if i < a.len() {
                assert((a + b)[i] == a[i]);
            } else {
                assert((a + b)[i] == b[i - a.len()]);
            }
        }
    }
}

proof fn lemma_escape_high(s: Seq<u8>)
    requires
        forall|i: int| 0 <= i < s.len() ==> #[trigger] s[i] >= 0x80,
    ensures
        escape(s) == s,
    decreases s.len(),
{
    if s.len() > 0 {
        lemma_escape_high(s.drop_first());
        assert(seq![s[0]] + s.drop_first() =~= s);
    }
}

/// The escaped UTF-8 bytes of any characters are again valid UTF-8.
pub proof fn lemma_escape_utf8_valid(x: Seq<char>)
    ensures
        valid_utf8(escape(encode_utf8(x))),
    decreases x.len(),
{
    broadcast use valid_utf8_concat;

    if x.len() == 0 {
        assert(escape(encode_utf8(x)) =~= Seq::<u8>::empty());
        lemma_ascii_valid(Seq::<u8>::empty());
    } else {
        let c = x[0] as u32;
        let head = encode_scalar(c);
        let tail = encode_utf8(x.drop_first());
        assert(encode_utf8(x) == head + tail);
        lemma_escape_concat(head, tail);
        lemma_escape_utf8_valid(x.drop_first());
        if has_width_1_encoding(c) {
            let b = (c & 0x7F) as u8;
            assert(b < 0x80) by (bit_vector)
                requires
                    b == (c & 0x7F) as u8,
            ;
            assert(head == seq![b]);
            assert(head.drop_first() =~= Seq::<u8>::empty());
            assert(escape(head.drop_first()) =~= Seq::<u8>::empty());
            assert(head[0] == b);
            assert(escape(head) =~= escape_byte(b));
            lemma_escape_byte_ascii(b);
            lemma_ascii_valid(escape(head));
        } else {
            assert forall|i: int| 0 <= i < head.len() implies #[trigger] head[i] >= 0x80 by {
                assert(forall|y: u8| (0xC0u8 | y) >= 0x80) by (bit_vector);
                assert(forall|y: u8| (0xE0u8 | y) >= 0x80) by (bit_vector);
                assert(forall|y: u8| (0xF0u8 | y) >= 0x80) by (bit_vector);
                assert(forall|y: u8| (0x80u8 | y) >= 0x80) by (bit_vector);
            }
            lemma_escape_high(head);
            let one = seq![x[0]];
            encode_utf8_valid_utf8(one);
            assert(one.drop_first() =~= Seq::<char>::empty());
            assert(encode_utf8(one.drop_first()) =~= Seq::<u8>::empty());
            assert(one[0] == x[0]);
            assert(encode_utf8(one) =~= head);
        }
    }
}

} // verus!
