//! Byte-level JSON framing for the simulation channel.
//!
//! The channel speaks a fixed repertoire of small JSON messages, so
//! the library renders and recognizes them directly on bytes, in one
//! canonical spelling each: no surrounding whitespace, keys in the
//! order given here, integers in plain decimal, and strings escaped
//! exactly as [`escape_byte`] says.

use crate::codec::hex_digit;
use vstd::prelude::*;
use vstd::string::StrSliceExecFns;

verus! {

/// `"`
pub const QUOTE: u8 = 34;
/// `\`
pub const BACKSLASH: u8 = 92;
/// `[`
pub const LBRACKET: u8 = 91;
/// `]`
pub const RBRACKET: u8 = 93;
/// `}`
pub const RBRACE: u8 = 125;
/// `,`
pub const COMMA: u8 = 44;
/// `u`
pub const LOWER_U: u8 = 117;
/// `0`
pub const DIGIT_ZERO: u8 = 48;

/// The canonical decimal digits of a byte value: one to three digits,
/// no leading zero.
pub open spec fn dec_digits(n: u8) -> Seq<u8> {
    if n < 10 {
        seq![(48 + n) as u8]
    } else if n < 100 {
        seq![(48 + n / 10) as u8, (48 + n % 10) as u8]
    } else {
        seq![(48 + n / 100) as u8, (48 + (n / 10) % 10) as u8, (48 + n % 10) as u8]
    }
}

/// The canonical decimal digits of an unbounded natural number.
pub open spec fn dec_nat(n: nat) -> Seq<u8>
    decreases n,
{
    if n < 10 {
        seq![(48 + n) as u8]
    } else {
        dec_nat(n / 10) + seq![(48 + n % 10) as u8]
    }
}

/// A comma-separated list of byte values in canonical decimal.
pub open spec fn int_list(bytes: Seq<u8>) -> Seq<u8>
    decreases bytes.len(),
{
    if bytes.len() == 0 {
        seq![]
    } else if bytes.len() == 1 {
        dec_digits(bytes[0])
    } else {
        dec_digits(bytes[0]) + seq![COMMA] + int_list(bytes.drop_first())
    }
}

/// The canonical escape of one byte inside a JSON string: quote and
/// backslash take a backslash, control bytes become `\u00` and two
/// lowercase hex digits, and every other byte stands as itself.
pub open spec fn escape_byte(b: u8) -> Seq<u8> {
    if b == QUOTE {
        seq![BACKSLASH, QUOTE]
    } else if b == BACKSLASH {
        seq![BACKSLASH, BACKSLASH]
    } else if b < 32 {
        seq![BACKSLASH, LOWER_U, DIGIT_ZERO, DIGIT_ZERO, hex_digit(b / 16), hex_digit(b % 16)]
    } else {
        seq![b]
    }
}

/// The canonical escape of a whole byte string.
pub open spec fn escape_bytes(s: Seq<u8>) -> Seq<u8>
    decreases s.len(),
{
    if s.len() == 0 {
        seq![]
    } else {
        escape_byte(s[0]) + escape_bytes(s.drop_first())
    }
}

proof fn lemma_escape_bytes_snoc(s: Seq<u8>, b: u8)
    ensures
        escape_bytes(s.push(b)) == escape_bytes(s) + escape_byte(b),
    decreases s.len(),
{
    if s.len() == 0 {
        assert(s.push(b).drop_first() =~= Seq::<u8>::empty());
        assert(escape_bytes(Seq::<u8>::empty()) =~= seq![]);
        assert(escape_bytes(s.push(b)) =~= escape_bytes(s) + escape_byte(b));
    } else {
        lemma_escape_bytes_snoc(s.drop_first(), b);
        assert(s.push(b).drop_first() =~= s.drop_first().push(b));
        assert(escape_byte(s[0]) + (escape_bytes(s.drop_first()) + escape_byte(b)) =~= (escape_byte(
            s[0],
        ) + escape_bytes(s.drop_first())) + escape_byte(b));
        assert(escape_bytes(s.push(b)) =~= escape_bytes(s) + escape_byte(b));
    }
}

/// Renders the canonical escape of `s`.
pub fn escape(s: &[u8]) -> (r: Vec<u8>)
    ensures
        r@ == escape_bytes(s@),
{
    let mut out: Vec<u8> = Vec::new();
    let mut i: usize = 0;
    proof {
        assert(out@ =~= escape_bytes(s@.take(0)));
    }
    while i < s.len()
        invariant
            i <= s@.len(),
            out@ == escape_bytes(s@.take(i as int)),
        decreases s@.len() - i,
    {
        let ghost prev = out@;
        let b = s[i];
        if b == QUOTE {
            out.push(BACKSLASH);
            out.push(QUOTE);
        } else if b == BACKSLASH {
            out.push(BACKSLASH);
            out.push(BACKSLASH);
        } else if b < 32 {
            out.push(BACKSLASH);
            out.push(LOWER_U);
            out.push(DIGIT_ZERO);
            out.push(DIGIT_ZERO);
            let hi = b / 16;
            let lo = b % 16;
            out.push(if hi < 10 { 48 + hi } else { 87 + hi });
            out.push(if lo < 10 { 48 + lo } else { 87 + lo });
        } else {
            out.push(b);
        }
        proof {
            lemma_escape_bytes_snoc(s@.take(i as int), s@[i as int]);
            assert(s@.take(i as int).push(s@[i as int]) =~= s@.take(i as int + 1));
            assert(out@ =~= prev + escape_byte(s@[i as int]));
        }
        i += 1;
    }
    proof {
        assert(s@.take(s@.len() as int) =~= s@);
    }
    out
}

/// Renders a natural number in canonical decimal.
pub fn render_u32(n: u32) -> (r: Vec<u8>)
    ensures
        r@ == dec_nat(n as nat),
    decreases n,
{
    if n < 10 {
        let mut r: Vec<u8> = Vec::new();
        r.push(48 + (n as u8));
        proof {
            assert(r@ =~= dec_nat(n as nat));
        }
        r
    } else {
        let mut r = render_u32(n / 10);
        r.push(48 + ((n % 10) as u8));
        proof {
            assert(r@ =~= dec_nat((n as nat) / 10) + seq![(48 + (n as nat) % 10) as u8]);
        }
        r
    }
}

/// For a non-empty string, the escape of the whole is the escape of
/// the head followed by the escape of the tail.
proof fn lemma_escape_unfold(t: Seq<u8>)
    requires
        t.len() > 0,
    ensures
        escape_bytes(t) == escape_byte(t[0]) + escape_bytes(t.drop_first()),
{
}

/// Recognizes `escape_bytes(t) + "\"}"` covering `s` from `from` to
/// its end, and recovers `t`; fails exactly when no `t` fits.
#[verifier::rlimit(100)]
#[verifier::spinoff_prover]
pub(crate) fn parse_string_body(s: &[u8], from: usize) -> (r: Option<Vec<u8>>)
    requires
        from <= s@.len(),
    ensures
        match r {
            Some(t) => s@.skip(from as int) == escape_bytes(t@) + seq![QUOTE, RBRACE],
            None => forall|t: Seq<u8>|
                s@.skip(from as int) != escape_bytes(t) + seq![QUOTE, RBRACE],
        },
    decreases s@.len() - from,
{
    let n = s.len();
    let ghost rest = s@.skip(from as int);
    if from >= n {
        proof {
            assert forall|t: Seq<u8>| rest != escape_bytes(t) + seq![QUOTE, RBRACE] by {
                assert((escape_bytes(t) + seq![QUOTE, RBRACE]).len() >= 2);
            }
        }
        return None;
    }
    let b = s[from];
    proof {
        assert(rest[0] == s@[from as int]);
    }
    if b == QUOTE {
        if n - from == 2 && s[from + 1] == RBRACE {
            let t: Vec<u8> = Vec::new();
            proof {
                assert(escape_bytes(t@) =~= seq![]);
                assert(rest =~= escape_bytes(t@) + seq![QUOTE, RBRACE]);
            }
            return Some(t);
        } else {
            proof {
                assert forall|t: Seq<u8>| rest != escape_bytes(t) + seq![QUOTE, RBRACE] by {
                    if rest == escape_bytes(t) + seq![QUOTE, RBRACE] {
                        if t.len() == 0 {
                            assert(escape_bytes(t) =~= seq![]);
                            assert(rest =~= seq![QUOTE, RBRACE]);
                            assert(rest.len() == 2 && rest[1] == RBRACE);
                        } else {
                            lemma_escape_unfold(t);
                            assert(rest[0] == escape_byte(t[0])[0]);
                            assert(escape_byte(t[0])[0] != QUOTE);
                        }
                    }
                }
            }
            return None;
        }
    } else if b == BACKSLASH {
        if n - from < 2 {
            proof {
                assert forall|t: Seq<u8>| rest != escape_bytes(t) + seq![QUOTE, RBRACE] by {
                    if rest == escape_bytes(t) + seq![QUOTE, RBRACE] {
                        if t.len() == 0 {
                            assert(escape_bytes(t) =~= seq![]);
                            assert(rest[0] == QUOTE);
                        } else {
                            lemma_escape_unfold(t);
                            assert(rest.len() >= escape_byte(t[0]).len() + 2);
                        }
                    }
                }
            }
            return None;
        }
        let c = s[from + 1];
        proof {
            assert(rest[1] == s@[from as int + 1]);
        }
        if c == QUOTE || c == BACKSLASH {
            match parse_string_body(s, from + 2) {
                Some(mut t2) => {
                    let ghost prev = t2@;
                    t2.insert(0, c);
                    proof {
                        let t = t2@;
                        assert(t =~= seq![c] + prev);
                        assert(t.drop_first() =~= prev);
                        lemma_escape_unfold(t);
                        assert(escape_byte(c) =~= seq![BACKSLASH, c]);
                        assert(rest =~= seq![BACKSLASH, c] + s@.skip(from as int + 2));
                        assert(rest =~= escape_bytes(t) + seq![QUOTE, RBRACE]);
                    }
                    return Some(t2);
                },
                None => {
                    proof {
                        assert forall|t: Seq<u8>| rest != escape_bytes(t) + seq![QUOTE, RBRACE] by {
                            if rest == escape_bytes(t) + seq![QUOTE, RBRACE] {
                                if t.len() == 0 {
                                    assert(escape_bytes(t) =~= seq![]);
                                    assert(rest[0] == QUOTE);
                                } else {
                                    lemma_escape_unfold(t);
                                    let e = escape_byte(t[0]);
                                    assert(rest[0] == e[0]);
                                    if t[0] == c {
                                        assert(e =~= seq![BACKSLASH, c]);
                                        assert(rest =~= seq![BACKSLASH, c] + (escape_bytes(
                                            t.drop_first(),
                                        ) + seq![QUOTE, RBRACE]));
                                        assert(s@.skip(from as int + 2) =~= rest.skip(2));
                                        assert(rest.skip(2) =~= escape_bytes(t.drop_first())
                                            + seq![QUOTE, RBRACE]);
                                    } else {
                                        assert(rest[1] == e[1]);
                                    }
                                }
                            }
                        }
                    }
                    return None;
                },
            }
        } else if c == LOWER_U {
            if n - from < 6 {
                proof {
                    assert forall|t: Seq<u8>| rest != escape_bytes(t) + seq![QUOTE, RBRACE] by {
                        if rest == escape_bytes(t) + seq![QUOTE, RBRACE] {
                            if t.len() == 0 {
                                assert(escape_bytes(t) =~= seq![]);
                                assert(rest[0] == QUOTE);
                            } else {
                                lemma_escape_unfold(t);
                                let e = escape_byte(t[0]);
                                assert(rest[0] == e[0]);
                                assert(rest[1] == e[1]);
                                assert(rest.len() >= e.len() + 2);
                            }
                        }
                    }
                }
                return None;
            }
            let d2 = s[from + 2];
            let d3 = s[from + 3];
            let h1 = s[from + 4];
            let h2 = s[from + 5];
            proof {
                assert(rest[2] == s@[from as int + 2]);
                assert(rest[3] == s@[from as int + 3]);
                assert(rest[4] == s@[from as int + 4]);
                assert(rest[5] == s@[from as int + 5]);
            }
            let hi = if 48 <= h1 && h1 <= 57 {
                h1 - 48
            } else if 97 <= h1 && h1 <= 102 {
                h1 - 87
            } else {
                16
            };
            let lo = if 48 <= h2 && h2 <= 57 {
                h2 - 48
            } else if 97 <= h2 && h2 <= 102 {
                h2 - 87
            } else {
                16
            };
            if d2 == DIGIT_ZERO && d3 == DIGIT_ZERO && hi < 16 && lo < 16 && hi * 16 + lo < 32 {
                let v = hi * 16 + lo;
                match parse_string_body(s, from + 6) {
                    Some(mut t2) => {
                        let ghost prev = t2@;
                        t2.insert(0, v);
                        proof {
                            let t = t2@;
                            assert(t =~= seq![v] + prev);
                            assert(t.drop_first() =~= prev);
                            lemma_escape_unfold(t);
                            assert(escape_byte(v) =~= seq![
                                BACKSLASH,
                                LOWER_U,
                                DIGIT_ZERO,
                                DIGIT_ZERO,
                                hex_digit(v / 16),
                                hex_digit(v % 16),
                            ]);
                            assert(hex_digit(v / 16) == h1);
                            assert(hex_digit(v % 16) == h2);
                            assert(rest =~= escape_byte(v) + s@.skip(from as int + 6));
                            assert(rest =~= escape_bytes(t) + seq![QUOTE, RBRACE]);
                        }
                        return Some(t2);
                    },
                    None => {
                        proof {
                            assert forall|t: Seq<u8>|
                                rest != escape_bytes(t) + seq![QUOTE, RBRACE] by {
                                if rest == escape_bytes(t) + seq![QUOTE, RBRACE] {
                                    if t.len() == 0 {
                                        assert(escape_bytes(t) =~= seq![]);
                                        assert(rest[0] == QUOTE);
                                    } else {
                                        lemma_escape_unfold(t);
                                        let e = escape_byte(t[0]);
                                        assert(rest[0] == e[0]);
                                        assert(rest[1] == e[1]);
                                        if t[0] < 32 {
                                            assert(rest[4] == hex_digit(t[0] / 16));
                                            assert(rest[5] == hex_digit(t[0] % 16));
                                            assert(t[0] / 16 < 2);
                                            assert(hex_digit(t[0] / 16) == 48 + t[0] / 16);
                                            if t[0] % 16 < 10 {
                                                assert(hex_digit(t[0] % 16) == 48 + t[0] % 16);
                                            } else {
                                                assert(hex_digit(t[0] % 16) == 87 + t[0] % 16);
                                            }
                                            assert(t[0] / 16 == hi && t[0] % 16 == lo);
                                            assert(t[0] == v);
                                            assert(e =~= seq![
                                                BACKSLASH,
                                                LOWER_U,
                                                DIGIT_ZERO,
                                                DIGIT_ZERO,
                                                hex_digit(v / 16),
                                                hex_digit(v % 16),
                                            ]);
                                            assert(rest =~= e + (escape_bytes(t.drop_first())
                                                + seq![QUOTE, RBRACE]));
                                            assert(s@.skip(from as int + 6) =~= rest.skip(6));
                                            assert(rest.skip(6) =~= escape_bytes(t.drop_first())
                                                + seq![QUOTE, RBRACE]);
                                        }
                                    }
                                }
                            }
                        }
                        return None;
                    },
                }
            } else {
                proof {
                    assert forall|t: Seq<u8>| rest != escape_bytes(t) + seq![QUOTE, RBRACE] by {
                        if rest == escape_bytes(t) + seq![QUOTE, RBRACE] {
                            if t.len() == 0 {
                                assert(escape_bytes(t) =~= seq![]);
                                assert(rest[0] == QUOTE);
                            } else {
                                lemma_escape_unfold(t);
                                let e = escape_byte(t[0]);
                                assert(rest[0] == e[0]);
                                assert(rest[1] == e[1]);
                                if t[0] < 32 {
                                    assert(rest[2] == DIGIT_ZERO);
                                    assert(rest[3] == DIGIT_ZERO);
                                    assert(rest[4] == hex_digit(t[0] / 16));
                                    assert(rest[5] == hex_digit(t[0] % 16));
                                    assert(t[0] / 16 < 2);
                                    assert(hex_digit(t[0] / 16) == 48 + t[0] / 16);
                                    if t[0] % 16 < 10 {
                                        assert(hex_digit(t[0] % 16) == 48 + t[0] % 16);
                                    } else {
                                        assert(hex_digit(t[0] % 16) == 87 + t[0] % 16);
                                    }
                                }
                            }
                        }
                    }
                }
                return None;
            }
        } else {
            proof {
                assert forall|t: Seq<u8>| rest != escape_bytes(t) + seq![QUOTE, RBRACE] by {
                    if rest == escape_bytes(t) + seq![QUOTE, RBRACE] {
                        if t.len() == 0 {
                            assert(escape_bytes(t) =~= seq![]);
                            assert(rest[0] == QUOTE);
                        } else {
                            lemma_escape_unfold(t);
                            let e = escape_byte(t[0]);
                            assert(rest[0] == e[0]);
                            assert(rest[1] == e[1]);
                        }
                    }
                }
            }
            return None;
        }
    } else if b < 32 {
        proof {
            assert forall|t: Seq<u8>| rest != escape_bytes(t) + seq![QUOTE, RBRACE] by {
                if rest == escape_bytes(t) + seq![QUOTE, RBRACE] {
                    if t.len() == 0 {
                        assert(escape_bytes(t) =~= seq![]);
                        assert(rest[0] == QUOTE);
                    } else {
                        lemma_escape_unfold(t);
                        assert(rest[0] == escape_byte(t[0])[0]);
                    }
                }
            }
        }
        return None;
    } else {
        match parse_string_body(s, from + 1) {
            Some(mut t2) => {
                let ghost prev = t2@;
                t2.insert(0, b);
                proof {
                    let t = t2@;
                    assert(t =~= seq![b] + prev);
                    assert(t.drop_first() =~= prev);
                    lemma_escape_unfold(t);
                    assert(escape_byte(b) =~= seq![b]);
                    assert(rest =~= seq![b] + s@.skip(from as int + 1));
                    assert(rest =~= escape_bytes(t) + seq![QUOTE, RBRACE]);
                }
                return Some(t2);
            },
            None => {
                proof {
                    assert forall|t: Seq<u8>| rest != escape_bytes(t) + seq![QUOTE, RBRACE] by {
                        if rest == escape_bytes(t) + seq![QUOTE, RBRACE] {
                            if t.len() == 0 {
                                assert(escape_bytes(t) =~= seq![]);
                                assert(rest[0] == QUOTE);
                            } else {
                                lemma_escape_unfold(t);
                                let e = escape_byte(t[0]);
                                assert(rest[0] == e[0]);
                                if t[0] == b {
                                    assert(e =~= seq![b]);
                                    assert(rest =~= seq![b] + (escape_bytes(t.drop_first())
                                        + seq![QUOTE, RBRACE]));
                                    assert(s@.skip(from as int + 1) =~= rest.skip(1));
                                    assert(rest.skip(1) =~= escape_bytes(t.drop_first())
                                        + seq![QUOTE, RBRACE]);
                                }
                            }
                        }
                    }
                }
                return None;
            },
        }
    }
}

/// For a list of two or more values, the rendering is the first value
/// followed by a comma and the rendering of the rest.
proof fn lemma_int_list_unfold(b: Seq<u8>)
    requires
        b.len() >= 2,
    ensures
        int_list(b) == dec_digits(b[0]) + seq![COMMA] + int_list(b.drop_first()),
{
}

/// A byte is the image of a decimal digit exactly when it lies
/// between the codes of `0` and `9`; every byte of a canonical
/// decimal rendering does.
proof fn lemma_dec_digits_are_digits(x: u8)
    ensures
        1 <= dec_digits(x).len() <= 3,
        forall|j: int| 0 <= j < dec_digits(x).len() ==> 48 <= #[trigger] dec_digits(x)[j] <= 57,
{
    if x < 10 {
        assert(dec_digits(x) =~= seq![(48 + x) as u8]);
    } else if x < 100 {
        assert(dec_digits(x) =~= seq![(48 + x / 10) as u8, (48 + x % 10) as u8]);
    } else {
        assert(dec_digits(x) =~= seq![
            (48 + x / 100) as u8,
            (48 + (x / 10) % 10) as u8,
            (48 + x % 10) as u8,
        ]);
    }
    assert forall|j: int| 0 <= j < dec_digits(x).len() implies 48 <= #[trigger] dec_digits(x)[j]
        <= 57 by {
        if x < 10 {
        } else if x < 100 {
            assert(x / 10 <= 9 && x % 10 <= 9);
        } else {
            assert(x / 100 <= 2 && (x / 10) % 10 <= 9 && x % 10 <= 9);
        }
    }
}

/// Reads one canonical decimal item at `from`: its value and its
/// digit count.  When the bytes from `from` on spell a non-empty list
/// followed by `"]}"`, the item read is exactly that list's head.
#[verifier::rlimit(100)]
#[verifier::spinoff_prover]
fn parse_item_head(s: &[u8], from: usize) -> (r: Option<(u8, usize)>)
    requires
        from <= s@.len(),
    ensures
        match r {
            Some(pair) => {
                &&& 1 <= pair.1 <= 3
                &&& from + pair.1 <= s@.len()
                &&& dec_digits(pair.0).len() == pair.1
                &&& dec_digits(pair.0) == s@.skip(from as int).subrange(0, pair.1 as int)
                &&& forall|b: Seq<u8>|
                    b.len() >= 1 && s@.skip(from as int) == int_list(b) + seq![RBRACKET, RBRACE]
                        ==> b[0] == pair.0 && dec_digits(b[0]).len() == pair.1
            },
            None => forall|b: Seq<u8>|
                b.len() >= 1 ==> s@.skip(from as int) != int_list(b) + seq![RBRACKET, RBRACE],
        },
{
    let n = s.len();
    let ghost rest = s@.skip(from as int);
    if from >= n {
        proof {
            assert forall|b: Seq<u8>|
                b.len() >= 1 implies rest != int_list(b) + seq![RBRACKET, RBRACE] by {
                assert((int_list(b) + seq![RBRACKET, RBRACE]).len() >= 2);
            }
        }
        return None;
    }
    let d0 = s[from];
    proof {
        assert(rest[0] == s@[from as int]);
    }
    if !(48 <= d0 && d0 <= 57) {
        proof {
            assert forall|b: Seq<u8>|
                b.len() >= 1 implies rest != int_list(b) + seq![RBRACKET, RBRACE] by {
                if rest == int_list(b) + seq![RBRACKET, RBRACE] {
                    if b.len() >= 2 {
                        lemma_int_list_unfold(b);
                    }
                    assert(rest[0] == dec_digits(b[0])[0]);
                }
            }
        }
        return None;
    }
    // Maximal run of digits, up to four looked at.
    let k: usize = if from + 1 < n && 48 <= s[from + 1] && s[from + 1] <= 57 {
        if from + 2 < n && 48 <= s[from + 2] && s[from + 2] <= 57 {
            if from + 3 < n && 48 <= s[from + 3] && s[from + 3] <= 57 {
                4
            } else {
                3
            }
        } else {
            2
        }
    } else {
        1
    };
    proof {
        assert(forall|j: int| 0 <= j < k && from + j < s@.len() ==> rest[j] == s@[from as int + j]);
    }
    if k == 4 {
        proof {
            assert forall|b: Seq<u8>|
                b.len() >= 1 implies rest != int_list(b) + seq![RBRACKET, RBRACE] by {
                if rest == int_list(b) + seq![RBRACKET, RBRACE] {
                    if b.len() >= 2 {
                        lemma_int_list_unfold(b);
                    }
                    let dl = dec_digits(b[0]).len() as int;
                    assert(dl <= 3);
                    assert(rest[dl] == COMMA || rest[dl] == RBRACKET);
                    assert(48 <= rest[dl] <= 57);
                }
            }
        }
        return None;
    }
    let mut value: u16 = (d0 - 48) as u16;
    let mut canonical = true;
    if k == 2 {
        value = value * 10 + ((s[from + 1] - 48) as u16);
        canonical = d0 != 48;
    } else if k == 3 {
        value = value * 100 + (((s[from + 1] - 48) as u16) * 10) + ((s[from + 2] - 48) as u16);
        canonical = d0 != 48 && value <= 255;
    }
    if !canonical {
        proof {
            assert forall|b: Seq<u8>|
                b.len() >= 1 implies rest != int_list(b) + seq![RBRACKET, RBRACE] by {
                if rest == int_list(b) + seq![RBRACKET, RBRACE] {
                    if b.len() >= 2 {
                        lemma_int_list_unfold(b);
                    }
                    let x = b[0];
                    let dl = dec_digits(x).len() as int;
                    assert(rest[dl] == COMMA || rest[dl] == RBRACKET);
                    lemma_dec_digits_are_digits(x);
                    if dl < k {
                        assert(48 <= rest[dl] <= 57);
                    }
                    if dl > k {
                        assert(rest.len() >= dl + 2);
                        assert(from + k < s@.len());
                        assert(rest[k as int] == s@[from as int + k]);
                        assert(rest[k as int] == dec_digits(x)[k as int]);
                        assert(48 <= rest[k as int] <= 57);
                    }
                    assert(dl == k);
                    if k == 2 {
                        assert(rest[0] == dec_digits(x)[0]);
                        assert(rest[1] == dec_digits(x)[1]);
                    } else if k == 3 {
                        assert(rest[0] == dec_digits(x)[0]);
                        assert(rest[1] == dec_digits(x)[1]);
                        assert(rest[2] == dec_digits(x)[2]);
                        assert(x == (x / 100) * 100 + ((x / 10) % 10) * 10 + x % 10) by {
                            assert(x / 100 == (x / 10) / 10);
                            assert((x / 10) * 10 + x % 10 == x);
                            assert(((x / 10) / 10) * 10 + (x / 10) % 10 == x / 10);
                        }
                    }
                }
            }
        }
        return None;
    }
    let v = value as u8;
    let p = from + k;
    proof {
        if k == 1 {
            assert(dec_digits(v) =~= seq![s@[from as int]]);
        } else if k == 2 {
            assert(v >= 10 && v < 100);
            assert(v / 10 == (s@[from as int] - 48) && v % 10 == (s@[from as int + 1] - 48));
            assert(dec_digits(v) =~= seq![s@[from as int], s@[from as int + 1]]);
        } else {
            assert(v >= 100);
            assert(v == (v / 100) * 100 + ((v / 10) % 10) * 10 + v % 10) by {
                assert(v / 100 == (v / 10) / 10);
                assert((v / 10) * 10 + v % 10 == v);
                assert(((v / 10) / 10) * 10 + (v / 10) % 10 == v / 10);
            }
            assert(v / 100 == (s@[from as int] - 48));
            assert((v / 10) % 10 == (s@[from as int + 1] - 48));
            assert(v % 10 == (s@[from as int + 2] - 48));
            assert(dec_digits(v) =~= seq![
                s@[from as int],
                s@[from as int + 1],
                s@[from as int + 2],
            ]);
        }
        assert(dec_digits(v) =~= rest.subrange(0, k as int));
    }
    proof {
        assert forall|b: Seq<u8>|
            b.len() >= 1 && rest == int_list(b) + seq![RBRACKET, RBRACE] implies b[0] == v
            && dec_digits(b[0]).len() == k by {
            if b.len() >= 2 {
                lemma_int_list_unfold(b);
            }
            let x = b[0];
            let dl = dec_digits(x).len() as int;
            assert(rest[dl] == COMMA || rest[dl] == RBRACKET);
            lemma_dec_digits_are_digits(x);
            if dl < k {
                assert(48 <= rest[dl] <= 57);
            }
            if dl > k {
                assert(rest.len() >= dl + 2);
                assert(from + k < s@.len());
                assert(rest[k as int] == s@[from as int + k]);
                assert(rest[k as int] == dec_digits(x)[k as int]);
                assert(48 <= rest[k as int] <= 57);
            }
            assert(dl == k);
            if k == 1 {
                assert(rest[0] == dec_digits(x)[0]);
                assert(dec_digits(v)[0] == rest[0]);
            } else if k == 2 {
                assert(rest[0] == dec_digits(x)[0]);
                assert(rest[1] == dec_digits(x)[1]);
                assert(dec_digits(v)[0] == rest[0] && dec_digits(v)[1] == rest[1]);
                assert(x / 10 == v / 10 && x % 10 == v % 10);
                assert(x == (x / 10) * 10 + x % 10);
                assert(v == (v / 10) * 10 + v % 10);
            } else {
                assert(rest[0] == dec_digits(x)[0]);
                assert(rest[1] == dec_digits(x)[1]);
                assert(rest[2] == dec_digits(x)[2]);
                assert(dec_digits(v)[0] == rest[0] && dec_digits(v)[1] == rest[1] && dec_digits(
                    v,
                )[2] == rest[2]);
                assert(x / 100 == v / 100 && (x / 10) % 10 == (v / 10) % 10 && x % 10 == v % 10);
                assert(x == (x / 100) * 100 + ((x / 10) % 10) * 10 + x % 10) by {
                    assert(x / 100 == (x / 10) / 10);
                    assert((x / 10) * 10 + x % 10 == x);
                    assert(((x / 10) / 10) * 10 + (x / 10) % 10 == x / 10);
                }
                assert(v == (v / 100) * 100 + ((v / 10) % 10) * 10 + v % 10) by {
                    assert(v / 100 == (v / 10) / 10);
                    assert((v / 10) * 10 + v % 10 == v);
                    assert(((v / 10) / 10) * 10 + (v / 10) % 10 == v / 10);
                }
            }
        }
    }
    proof {
        if k == 1 {
            assert(v < 10);
        } else if k == 3 {
            assert(v >= 100);
        }
        assert(dec_digits(v).len() == k);
    }
    Some((v, k))
}

/// Recognizes `int_list(b) + "]}"` covering `s` from `from` to its
/// end, for a non-empty list `b`, and recovers `b`; fails exactly when
/// no non-empty `b` fits.
#[verifier::rlimit(100)]
#[verifier::spinoff_prover]
fn parse_items_nonempty(s: &[u8], from: usize) -> (r: Option<Vec<u8>>)
    requires
        from <= s@.len(),
    ensures
        match r {
            Some(b) => b@.len() >= 1 && s@.skip(from as int) == int_list(b@) + seq![
                RBRACKET,
                RBRACE,
            ],
            None => forall|b: Seq<u8>|
                b.len() >= 1 ==> s@.skip(from as int) != int_list(b) + seq![RBRACKET, RBRACE],
        },
    decreases s@.len() - from,
{
    let n = s.len();
    let ghost rest = s@.skip(from as int);
    let (v, k) = match parse_item_head(s, from) {
        Some(pair) => pair,
        None => {
            return None;
        },
    };
    let ghost dv = dec_digits(v);
    let p = from + k;
    if p >= n {
        proof {
            assert forall|b: Seq<u8>|
                b.len() >= 1 implies rest != int_list(b) + seq![RBRACKET, RBRACE] by {
                if rest == int_list(b) + seq![RBRACKET, RBRACE] {
                    if b.len() >= 2 {
                        lemma_int_list_unfold(b);
                    }
                    assert(rest.len() >= dec_digits(b[0]).len() + 2);
                }
            }
        }
        return None;
    }
    let c = s[p];
    proof {
        assert(rest[k as int] == s@[p as int]);
    }
    if c == COMMA {
        match parse_items_nonempty(s, p + 1) {
            Some(mut b2) => {
                let ghost prev = b2@;
                b2.insert(0, v);
                proof {
                    let b = b2@;
                    assert(b =~= seq![v] + prev);
                    assert(b.drop_first() =~= prev);
                    lemma_int_list_unfold(b);
                    assert(s@.skip(p as int + 1) =~= rest.skip(k as int + 1));
                    assert(rest =~= (dec_digits(v) + seq![COMMA]) + rest.skip(k as int + 1));
                    assert(rest =~= int_list(b) + seq![RBRACKET, RBRACE]);
                }
                return Some(b2);
            },
            None => {
                proof {
                    assert forall|b: Seq<u8>|
                        b.len() >= 1 implies rest != int_list(b) + seq![RBRACKET, RBRACE] by {
                        if rest == int_list(b) + seq![RBRACKET, RBRACE] {
                            if b.len() == 1 {
                                assert(rest[k as int] == RBRACKET);
                            } else {
                                lemma_int_list_unfold(b);
                                assert(rest =~= dec_digits(b[0]) + seq![COMMA] + (int_list(
                                    b.drop_first(),
                                ) + seq![RBRACKET, RBRACE]));
                                assert(s@.skip(p as int + 1) =~= rest.skip(k as int + 1));
                                assert(rest.skip(k as int + 1) =~= int_list(b.drop_first())
                                    + seq![RBRACKET, RBRACE]);
                                assert(b.drop_first().len() >= 1);
                            }
                        }
                    }
                }
                return None;
            },
        }
    } else if c == RBRACKET {
        if n - p == 2 && s[p + 1] == RBRACE {
            let mut b: Vec<u8> = Vec::new();
            b.push(v);
            proof {
                assert(b@ =~= seq![v]);
                assert(int_list(b@) == dec_digits(v));
                assert(rest[k as int + 1] == s@[p as int + 1]);
                assert(rest =~= int_list(b@) + seq![RBRACKET, RBRACE]);
            }
            return Some(b);
        } else {
            proof {
                assert forall|b: Seq<u8>|
                    b.len() >= 1 implies rest != int_list(b) + seq![RBRACKET, RBRACE] by {
                    if rest == int_list(b) + seq![RBRACKET, RBRACE] {
                        if b.len() == 1 {
                            assert(rest =~= dec_digits(b[0]) + seq![RBRACKET, RBRACE]);
                            assert(rest.len() == k + 2);
                            assert(rest[k as int + 1] == RBRACE);
                        } else {
                            lemma_int_list_unfold(b);
                            assert(rest[k as int] == COMMA);
                        }
                    }
                }
            }
            return None;
        }
    } else {
        proof {
            assert forall|b: Seq<u8>|
                b.len() >= 1 implies rest != int_list(b) + seq![RBRACKET, RBRACE] by {
                if rest == int_list(b) + seq![RBRACKET, RBRACE] {
                    if b.len() == 1 {
                        assert(rest[k as int] == RBRACKET);
                    } else {
                        lemma_int_list_unfold(b);
                        assert(rest[k as int] == COMMA);
                    }
                }
            }
        }
        return None;
    }
}

/// Recognizes `int_list(b) + "]}"` covering `s` from `from` to its
/// end, and recovers the list `b`; fails exactly when no `b` fits.
pub(crate) fn parse_items(s: &[u8], from: usize) -> (r: Option<Vec<u8>>)
    requires
        from <= s@.len(),
    ensures
        match r {
            Some(b) => s@.skip(from as int) == int_list(b@) + seq![RBRACKET, RBRACE],
            None => forall|b: Seq<u8>| s@.skip(from as int) != int_list(b) + seq![RBRACKET, RBRACE],
        },
{
    let n = s.len();
    let ghost rest = s@.skip(from as int);
    if from < n && s[from] == RBRACKET {
        proof {
            assert(rest[0] == s@[from as int]);
        }
        if n - from == 2 && s[from + 1] == RBRACE {
            let b: Vec<u8> = Vec::new();
            proof {
                assert(int_list(b@) =~= seq![]);
                assert(rest[1] == s@[from as int + 1]);
                assert(rest =~= int_list(b@) + seq![RBRACKET, RBRACE]);
            }
            return Some(b);
        } else {
            proof {
                assert forall|b: Seq<u8>| rest != int_list(b) + seq![RBRACKET, RBRACE] by {
                    if rest == int_list(b) + seq![RBRACKET, RBRACE] {
                        if b.len() == 0 {
                            assert(int_list(b) =~= seq![]);
                            assert(rest =~= seq![RBRACKET, RBRACE]);
                            assert(rest.len() == 2 && rest[1] == RBRACE);
                        } else {
                            if b.len() >= 2 {
                                lemma_int_list_unfold(b);
                            }
                            assert(rest[0] == dec_digits(b[0])[0]);
                        }
                    }
                }
            }
            return None;
        }
    } else {
        let r = parse_items_nonempty(s, from);
        proof {
            if r is None {
                assert forall|b: Seq<u8>| rest != int_list(b) + seq![RBRACKET, RBRACE] by {
                    if rest == int_list(b) + seq![RBRACKET, RBRACE] {
                        if b.len() == 0 {
                            assert(int_list(b) =~= seq![]);
                            assert(rest =~= seq![RBRACKET, RBRACE]);
                            if from < s@.len() {
                                assert(rest[0] == s@[from as int]);
                            }
                        }
                    }
                }
            }
        }
        return r;
    }
}

/// The bytes of an ASCII string literal, for splicing into messages.
pub fn lit_bytes(s: &str) -> (r: Vec<u8>)
    ensures
        r@ == vstd::utf8::encode_utf8(s@),
{
    s.as_bytes_vec()
}

} // verus!
