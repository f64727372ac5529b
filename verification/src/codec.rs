//! The record codec.
//!
//! Each mutation is one self-delimited record over characters:
//!
//! * a `SET` is the tag `'S'`, the key length and the value length, each as
//!   twenty decimal digits, then the key and the value;
//! * a `RM` is the tag `'R'`, the key length as twenty decimal digits, then
//!   the key.
//!
//! Records concatenate with no separator; [`parse_record`] recovers the exact
//! half-open interval each record occupies. The module also proves the facts
//! the store lives on: an encoded record parses back to itself at any offset
//! ([`lemma_encode_parses`]), and parsing reads nothing outside the interval
//! it reports ([`lemma_parse_agree`]), so records can be copied verbatim.

use vstd::prelude::*;
use vstd::string::*;

use crate::command::{Command, CommandV};
use crate::errors::KVStoreError;

verus! {

/// Whether `c` is a decimal digit.
pub open spec fn is_digit(c: char) -> bool {
    48 <= (c as u32) && (c as u32) <= 57
}

/// The numeric value of the digit `c`.
pub open spec fn digit_val(c: char) -> int {
    c as u32 - 48
}

/// The digit character for a value `d` in `0..10`.
pub open spec fn digit_char(d: int) -> char {
    if d == 0 {
        '0'
    } else if d == 1 {
        '1'
    } else if d == 2 {
        '2'
    } else if d == 3 {
        '3'
    } else if d == 4 {
        '4'
    } else if d == 5 {
        '5'
    } else if d == 6 {
        '6'
    } else if d == 7 {
        '7'
    } else if d == 8 {
        '8'
    } else {
        '9'
    }
}

/// Whether every character of `s` is a decimal digit.
pub open spec fn all_digits(s: Seq<char>) -> bool {
    forall|i: int| 0 <= i < s.len() ==> is_digit(#[trigger] s[i])
}

/// Ten to the power `w`.
pub open spec fn pow10(w: nat) -> nat
    decreases w,
{
    if w == 0 {
        1
    } else {
        10 * pow10((w - 1) as nat)
    }
}

/// `n` written as exactly `w` decimal digits, most significant first.
pub open spec fn enc_len(n: nat, w: nat) -> Seq<char>
    decreases w,
{
    if w == 0 {
        Seq::empty()
    } else {
        enc_len(n / 10, (w - 1) as nat).push(digit_char((n % 10) as int))
    }
}

/// The value of the digit string `s`, most significant digit first.
pub open spec fn dec_len(s: Seq<char>) -> nat
    decreases s.len(),
{
    if s.len() == 0 {
        0
    } else {
        dec_len(s.drop_last()) * 10 + (if is_digit(s.last()) {
            digit_val(s.last()) as nat
        } else {
            0
        })
    }
}

/// `n` in minimal decimal: no leading zero, and `"0"` for zero.
pub open spec fn min_dec(n: nat) -> Seq<char>
    decreases n,
{
    if n < 10 {
        seq![digit_char(n as int)]
    } else {
        min_dec(n / 10).push(digit_char((n % 10) as int))
    }
}

proof fn lemma_char_cast_inj(a: char, b: char)
    requires
        a as u32 == b as u32,
    ensures
        a == b,
{
    vstd::utf8::char_u32_cast(a, a as u32);
    vstd::utf8::char_u32_cast(b, b as u32);
}

proof fn lemma_digit_char_val(d: int)
    requires
        0 <= d < 10,
    ensures
        is_digit(digit_char(d)),
        digit_val(digit_char(d)) == d,
{
}

/// `pow10` is positive.
pub proof fn lemma_pow10_pos(w: nat)
    ensures
        pow10(w) >= 1,
    decreases w,
{
    if w > 0 {
        lemma_pow10_pos((w - 1) as nat);
    }
}

/// `pow10` grows with its argument.
pub proof fn lemma_pow10_mono(a: nat, b: nat)
    requires
        a <= b,
    ensures
        pow10(a) <= pow10(b),
        pow10(a) >= 1,
    decreases b,
{
    lemma_pow10_pos(a);
    if a < b {
        lemma_pow10_mono(a, (b - 1) as nat);
        lemma_pow10_pos((b - 1) as nat);
    }
}

/// The concrete value of `pow10(20)`, and that every machine length is below it.
pub proof fn lemma_pow10_20()
    ensures
        pow10(20) == 0x56BC75E2D63100000,
        usize::MAX < pow10(20),
        u64::MAX < pow10(20),
{
    assert(pow10(0) == 1);
    assert(pow10(1) == 10);
    assert(pow10(2) == 100);
    assert(pow10(3) == 1000);
    assert(pow10(4) == 10000);
    assert(pow10(5) == 100000);
    assert(pow10(6) == 1000000);
    assert(pow10(7) == 10000000);
    assert(pow10(8) == 100000000);
    assert(pow10(9) == 1000000000);
    assert(pow10(10) == 10000000000);
    assert(pow10(11) == 100000000000);
    assert(pow10(12) == 1000000000000);
    assert(pow10(13) == 10000000000000);
    assert(pow10(14) == 100000000000000);
    assert(pow10(15) == 1000000000000000);
    assert(pow10(16) == 10000000000000000);
    assert(pow10(17) == 100000000000000000);
    assert(pow10(18) == 1000000000000000000);
    assert(pow10(19) == 10000000000000000000);
    assert(pow10(20) == 100000000000000000000);
}

/// Fixed-width encoding: `w` digits whose value is `n`, for `n < pow10(w)`.
pub proof fn lemma_enc_len(n: nat, w: nat)
    requires
        n < pow10(w),
    ensures
        enc_len(n, w).len() == w,
        all_digits(enc_len(n, w)),
        dec_len(enc_len(n, w)) == n,
    decreases w,
{
    if w == 0 {
    } else {
        assert(pow10(w) == 10 * pow10((w - 1) as nat));
        assert(n / 10 < pow10((w - 1) as nat)) by {
            if n / 10 >= pow10((w - 1) as nat) {
                assert(n >= 10 * (n / 10)) by (nonlinear_arith);
                assert(10 * (n / 10) >= 10 * pow10((w - 1) as nat)) by (nonlinear_arith)
                    requires
                        n / 10 >= pow10((w - 1) as nat),
                ;
            }
        }
        lemma_enc_len(n / 10, (w - 1) as nat);
        lemma_digit_char_val((n % 10) as int);
        let inner = enc_len(n / 10, (w - 1) as nat);
        let whole = inner.push(digit_char((n % 10) as int));
        assert(whole.drop_last() =~= inner);
        assert(whole.last() == digit_char((n % 10) as int));
        assert(dec_len(whole) == dec_len(inner) * 10 + n % 10);
        assert((n / 10) * 10 + n % 10 == n) by (nonlinear_arith);
        assert(forall|i: int|
            0 <= i < whole.len() ==> is_digit(#[trigger] whole[i])) by {
            assert(forall|i: int|
                0 <= i < inner.len() ==> is_digit(#[trigger] inner[i]));
        }
    }
}

/// A digit string's value stays under `pow10` of its length.
pub proof fn lemma_dec_len_bound(s: Seq<char>)
    ensures
        dec_len(s) < pow10(s.len()),
    decreases s.len(),
{
    if s.len() == 0 {
    } else {
        lemma_dec_len_bound(s.drop_last());
        assert(pow10(s.len()) == 10 * pow10((s.len() - 1) as nat));
    }
}

/// Without a leading zero, a digit string's value reaches `pow10` of one less
/// than its length.
pub proof fn lemma_dec_len_lower(s: Seq<char>)
    requires
        s.len() >= 1,
        all_digits(s),
        s[0] != '0',
    ensures
        dec_len(s) >= pow10((s.len() - 1) as nat),
    decreases s.len(),
{
    if s.len() == 1 {
        assert(is_digit(s[0]));
        assert(digit_val(s[0]) >= 1) by {
            if digit_val(s[0]) == 0 {
                assert(s[0] as u32 == 48);
                assert('0' as u32 == 48);
                lemma_char_cast_inj(s[0], '0');
            }
        }
        assert(dec_len(s) == dec_len(s.drop_last()) * 10 + digit_val(s.last()));
        assert(s.drop_last().len() == 0);
    } else {
        let d = s.drop_last();
        assert(d[0] == s[0]);
        assert(all_digits(d)) by {
            assert(forall|i: int| 0 <= i < d.len() ==> d[i] == s[i]);
        }
        lemma_dec_len_lower(d);
        assert(pow10((s.len() - 1) as nat) == 10 * pow10((s.len() - 2) as nat));
        assert(dec_len(d) * 10 >= pow10((s.len() - 2) as nat) * 10) by (nonlinear_arith)
            requires
                dec_len(d) >= pow10((s.len() - 2) as nat),
        ;
    }
}

/// Minimal decimal: at least one digit, digits only, no leading zero, and the
/// value written is `n`.
pub proof fn lemma_min_dec(n: nat)
    ensures
        min_dec(n).len() >= 1,
        all_digits(min_dec(n)),
        n > 0 ==> min_dec(n)[0] != '0',
        dec_len(min_dec(n)) == n,
    decreases n,
{
    if n < 10 {
        lemma_digit_char_val(n as int);
        let s = min_dec(n);
        assert(s.len() == 1);
        assert(s.drop_last().len() == 0);
        assert(dec_len(s.drop_last()) == 0);
        assert(s.last() == digit_char(n as int));
        assert(dec_len(s) == digit_val(digit_char(n as int)));
        if n > 0 {
            assert(digit_char(n as int) as u32 != 48);
        }
    } else {
        assert(n / 10 < n) by (nonlinear_arith)
            requires
                n >= 10,
        ;
        assert(n / 10 >= 1) by (nonlinear_arith)
            requires
                n >= 10,
        ;
        lemma_min_dec(n / 10);
        lemma_digit_char_val((n % 10) as int);
        let inner = min_dec(n / 10);
        let whole = inner.push(digit_char((n % 10) as int));
        assert(whole.drop_last() =~= inner);
        assert(whole.last() == digit_char((n % 10) as int));
        assert(dec_len(whole) == (n / 10) * 10 + n % 10);
        assert((n / 10) * 10 + n % 10 == n) by (nonlinear_arith);
        assert(whole[0] == inner[0]);
        assert(forall|i: int|
            0 <= i < whole.len() ==> is_digit(#[trigger] whole[i])) by {
            assert(forall|i: int|
                0 <= i < inner.len() ==> is_digit(#[trigger] inner[i]));
        }
    }
}

/// Two digit strings without leading zeros that write the same value are the
/// same string: minimal decimal is canonical.
pub proof fn lemma_min_dec_canon(s: Seq<char>)
    requires
        s.len() >= 1,
        all_digits(s),
        s[0] != '0' || s.len() == 1,
    ensures
        s == min_dec(dec_len(s)),
    decreases s.len(),
{
    let n = dec_len(s);
    if s.len() == 1 {
        assert(s.drop_last().len() == 0);
        assert(dec_len(s.drop_last()) == 0);
        assert(s.last() == s[0]);
        assert(is_digit(s[0]));
        assert(n == digit_val(s[0]));
        assert(n < 10);
        assert(min_dec(n) == seq![digit_char(n as int)]);
        assert(digit_char(n as int) as u32 == s[0] as u32);
        lemma_char_cast_inj(digit_char(n as int), s[0]);
        assert(s =~= min_dec(n));
    } else {
        let d = s.drop_last();
        assert(d[0] == s[0]);
        assert(all_digits(d)) by {
            assert(forall|i: int| 0 <= i < d.len() ==> d[i] == s[i]);
        }
        lemma_dec_len_lower(s);
        lemma_pow10_mono(1, (s.len() - 1) as nat);
        assert(n >= 10);
        assert(n == dec_len(d) * 10 + digit_val(s.last()));
        assert(n / 10 == dec_len(d) && n % 10 == digit_val(s.last())) by (nonlinear_arith)
            requires
                n == dec_len(d) * 10 + digit_val(s.last()),
                0 <= digit_val(s.last()) < 10,
        ;
        lemma_min_dec_canon(d);
        lemma_digit_char_val((n % 10) as int);
        assert(digit_char((n % 10) as int) as u32 == s.last() as u32);
        lemma_char_cast_inj(digit_char((n % 10) as int), s.last());
        assert(min_dec(n) == min_dec(n / 10).push(digit_char((n % 10) as int)));
        assert(s =~= d.push(s.last()));
        assert(s =~= min_dec(n));
    }
}

/// The encoding of one mutation.
pub open spec fn spec_encode(c: CommandV) -> Seq<char> {
    match c {
        CommandV::SetV(k, v) => seq!['S'] + enc_len(k.len(), 20) + enc_len(v.len(), 20) + k + v,
        CommandV::RmV(k) => seq!['R'] + enc_len(k.len(), 20) + k,
    }
}

/// The record starting at `off` in the stream `s`, with the offset one past
/// its end, or `None` where no well-formed record starts there.
pub open spec fn parse_record(s: Seq<char>, off: int) -> Option<(CommandV, int)> {
    if 0 <= off < s.len() && s[off] == 'S' {
        if off + 41 <= s.len() {
            let ks = s.subrange(off + 1, off + 21);
            let vs = s.subrange(off + 21, off + 41);
            if all_digits(ks) && all_digits(vs) {
                let klen = dec_len(ks) as int;
                let vlen = dec_len(vs) as int;
                if off + 41 + klen + vlen <= s.len() {
                    Some(
                        (
                            CommandV::SetV(
                                s.subrange(off + 41, off + 41 + klen),
                                s.subrange(off + 41 + klen, off + 41 + klen + vlen),
                            ),
                            off + 41 + klen + vlen,
                        ),
                    )
                } else {
                    None
                }
            } else {
                None
            }
        } else {
            None
        }
    } else if 0 <= off < s.len() && s[off] == 'R' {
        if off + 21 <= s.len() {
            let ks = s.subrange(off + 1, off + 21);
            if all_digits(ks) {
                let klen = dec_len(ks) as int;
                if off + 21 + klen <= s.len() {
                    Some((CommandV::RmV(s.subrange(off + 21, off + 21 + klen)), off + 21 + klen))
                } else {
                    None
                }
            } else {
                None
            }
        } else {
            None
        }
    } else {
        None
    }
}

/// A parsed record occupies a non-empty interval that ends within the stream.
pub proof fn lemma_parse_end(s: Seq<char>, off: int)
    requires
        parse_record(s, off) is Some,
    ensures
        off + 21 <= parse_record(s, off).unwrap().1 <= s.len(),
{
}

/// Whether a mutation's key and value are short enough for their lengths to
/// fit the fixed-width length fields. Every string held in memory is.
pub open spec fn wf_command(c: CommandV) -> bool {
    match c {
        CommandV::SetV(k, v) => k.len() < pow10(20) && v.len() < pow10(20),
        CommandV::RmV(k) => k.len() < pow10(20),
    }
}

/// Parsing reads nothing outside the interval it reports: a record's
/// characters, placed at any offset of any stream with room for them, parse
/// to the same record there.
pub proof fn lemma_parse_agree(s1: Seq<char>, off1: int, s2: Seq<char>, off2: int)
    requires
        parse_record(s1, off1) is Some,
        0 <= off2,
        off2 + (parse_record(s1, off1).unwrap().1 - off1) <= s2.len(),
        s2.subrange(off2, off2 + (parse_record(s1, off1).unwrap().1 - off1)) == s1.subrange(
            off1,
            parse_record(s1, off1).unwrap().1,
        ),
    ensures
        parse_record(s2, off2) == Some(
            (parse_record(s1, off1).unwrap().0, off2 + (parse_record(s1, off1).unwrap().1 - off1)),
        ),
{
    let (c, end1) = parse_record(s1, off1).unwrap();
    let len = end1 - off1;
    lemma_parse_end(s1, off1);
    assert forall|j: int| off2 <= j < off2 + len implies s2[j] == s1[off1 + (j - off2)] by {
        assert(s2.subrange(off2, off2 + len)[j - off2] == s1.subrange(off1, end1)[j - off2]);
    }
    assert(s2[off2] == s1[off1]);
    if s1[off1] == 'S' {
        let ks1 = s1.subrange(off1 + 1, off1 + 21);
        let vs1 = s1.subrange(off1 + 21, off1 + 41);
        let klen = dec_len(ks1) as int;
        let vlen = dec_len(vs1) as int;
        assert(end1 == off1 + 41 + klen + vlen);
        let ks2 = s2.subrange(off2 + 1, off2 + 21);
        let vs2 = s2.subrange(off2 + 21, off2 + 41);
        assert(ks2 =~= ks1) by {
            assert forall|i: int| 0 <= i < 20 implies ks2[i] == ks1[i] by {
                assert(s2[off2 + (1 + i)] == s1[off1 + (1 + i)]);
            }
        }
        assert(vs2 =~= vs1) by {
            assert forall|i: int| 0 <= i < 20 implies vs2[i] == vs1[i] by {
                assert(s2[off2 + (21 + i)] == s1[off1 + (21 + i)]);
            }
        }
        let kq1 = s1.subrange(off1 + 41, off1 + 41 + klen);
        let kq2 = s2.subrange(off2 + 41, off2 + 41 + klen);
        assert(kq2 =~= kq1) by {
            assert forall|i: int| 0 <= i < klen implies kq2[i] == kq1[i] by {
                assert(s2[off2 + (41 + i)] == s1[off1 + (41 + i)]);
            }
        }
        let vq1 = s1.subrange(off1 + 41 + klen, off1 + 41 + klen + vlen);
        let vq2 = s2.subrange(off2 + 41 + klen, off2 + 41 + klen + vlen);
        assert(vq2 =~= vq1) by {
            assert forall|i: int| 0 <= i < vlen implies vq2[i] == vq1[i] by {
                assert(s2[off2 + (41 + klen + i)] == s1[off1 + (41 + klen + i)]);
            }
        }
        assert(parse_record(s2, off2) == Some((c, off2 + len)));
    } else {
        assert(s1[off1] == 'R');
        let ks1 = s1.subrange(off1 + 1, off1 + 21);
        let klen = dec_len(ks1) as int;
        assert(end1 == off1 + 21 + klen);
        let ks2 = s2.subrange(off2 + 1, off2 + 21);
        assert(ks2 =~= ks1) by {
            assert forall|i: int| 0 <= i < 20 implies ks2[i] == ks1[i] by {
                assert(s2[off2 + (1 + i)] == s1[off1 + (1 + i)]);
            }
        }
        let kq1 = s1.subrange(off1 + 21, off1 + 21 + klen);
        let kq2 = s2.subrange(off2 + 21, off2 + 21 + klen);
        assert(kq2 =~= kq1) by {
            assert forall|i: int| 0 <= i < klen implies kq2[i] == kq1[i] by {
                assert(s2[off2 + (21 + i)] == s1[off1 + (21 + i)]);
            }
        }
        assert(parse_record(s2, off2) == Some((c, off2 + len)));
    }
}

/// An encoded record parses back to itself from the start of its encoding.
pub proof fn lemma_parse_canonical(c: CommandV)
    requires
        wf_command(c),
    ensures
        parse_record(spec_encode(c), 0) == Some((c, spec_encode(c).len() as int)),
{
    match c {
        CommandV::SetV(k, v) => {
            let a = enc_len(k.len(), 20);
            let b = enc_len(v.len(), 20);
            lemma_enc_len(k.len(), 20);
            lemma_enc_len(v.len(), 20);
            let e = spec_encode(c);
            assert(e == seq!['S'] + a + b + k + v);
            assert(e.len() == 41 + k.len() + v.len());
            assert(e[0] == 'S');
            assert(e.subrange(1, 21) =~= a) by {
                assert forall|i: int| 0 <= i < 20 implies e.subrange(1, 21)[i] == a[i] by {
                    assert(e[1 + i] == a[i]);
                }
            }
            assert(e.subrange(21, 41) =~= b) by {
                assert forall|i: int| 0 <= i < 20 implies e.subrange(21, 41)[i] == b[i] by {
                    assert(e[21 + i] == b[i]);
                }
            }
            let kl = k.len() as int;
            let vl = v.len() as int;
            assert(e.subrange(41, 41 + kl) =~= k) by {
                assert forall|i: int| 0 <= i < kl implies e.subrange(41, 41 + kl)[i] == k[i] by {
                    assert(e[41 + i] == k[i]);
                }
            }
            assert(e.subrange(41 + kl, 41 + kl + vl) =~= v) by {
                assert forall|i: int|
                    0 <= i < vl implies e.subrange(41 + kl, 41 + kl + vl)[i] == v[i] by {
                    assert(e[41 + kl + i] == v[i]);
                }
            }
            assert(parse_record(e, 0) == Some((c, e.len() as int)));
        },
        CommandV::RmV(k) => {
            let a = enc_len(k.len(), 20);
            lemma_enc_len(k.len(), 20);
            let e = spec_encode(c);
            assert(e == seq!['R'] + a + k);
            assert(e.len() == 21 + k.len());
            assert(e[0] == 'R');
            assert(e.subrange(1, 21) =~= a) by {
                assert forall|i: int| 0 <= i < 20 implies e.subrange(1, 21)[i] == a[i] by {
                    assert(e[1 + i] == a[i]);
                }
            }
            let kl = k.len() as int;
            assert(e.subrange(21, 21 + kl) =~= k) by {
                assert forall|i: int| 0 <= i < kl implies e.subrange(21, 21 + kl)[i] == k[i] by {
                    assert(e[21 + i] == k[i]);
                }
            }
            assert(parse_record(e, 0) == Some((c, e.len() as int)));
        },
    }
}

/// An encoded record parses back to itself wherever its characters stand.
pub proof fn lemma_encode_parses(s: Seq<char>, off: int, c: CommandV)
    requires
        wf_command(c),
        0 <= off,
        off + spec_encode(c).len() <= s.len(),
        s.subrange(off, off + spec_encode(c).len()) == spec_encode(c),
    ensures
        parse_record(s, off) == Some((c, off + spec_encode(c).len())),
{
    lemma_parse_canonical(c);
    let e = spec_encode(c);
    assert(e.subrange(0, e.len() as int) =~= e);
    lemma_parse_agree(e, 0, s, off);
}

/// The encoded length of a mutation.
pub proof fn lemma_spec_encode_len(c: CommandV)
    ensures
        match c {
            CommandV::SetV(k, v) => spec_encode(c).len() == 41 + k.len() + v.len(),
            CommandV::RmV(k) => spec_encode(c).len() == 21 + k.len(),
        },
{
    match c {
        CommandV::SetV(k, v) => {
            lemma_enc_width(k.len(), 20);
            lemma_enc_width(v.len(), 20);
        },
        CommandV::RmV(k) => {
            lemma_enc_width(k.len(), 20);
        },
    }
}

/// `enc_len` always yields exactly `w` characters.
pub proof fn lemma_enc_width(n: nat, w: nat)
    ensures
        enc_len(n, w).len() == w,
    decreases w,
{
    if w > 0 {
        lemma_enc_width(n / 10, (w - 1) as nat);
    }
}

fn digit_str(d: u64) -> (r: &'static str)
    requires
        d < 10,
    ensures
        r@ == seq![digit_char(d as int)],
{
    proof {
        reveal_strlit("0");
        reveal_strlit("1");
        reveal_strlit("2");
        reveal_strlit("3");
        reveal_strlit("4");
        reveal_strlit("5");
        reveal_strlit("6");
        reveal_strlit("7");
        reveal_strlit("8");
        reveal_strlit("9");
    }
    if d == 0 {
        proof {
            assert("0"@ =~= seq![digit_char(d as int)]);
        }
        "0"
    } else if d == 1 {
        proof {
            assert("1"@ =~= seq![digit_char(d as int)]);
        }
        "1"
    } else if d == 2 {
        proof {
            assert("2"@ =~= seq![digit_char(d as int)]);
        }
        "2"
    } else if d == 3 {
        proof {
            assert("3"@ =~= seq![digit_char(d as int)]);
        }
        "3"
    } else if d == 4 {
        proof {
            assert("4"@ =~= seq![digit_char(d as int)]);
        }
        "4"
    } else if d == 5 {
        proof {
            assert("5"@ =~= seq![digit_char(d as int)]);
        }
        "5"
    } else if d == 6 {
        proof {
            assert("6"@ =~= seq![digit_char(d as int)]);
        }
        "6"
    } else if d == 7 {
        proof {
            assert("7"@ =~= seq![digit_char(d as int)]);
        }
        "7"
    } else if d == 8 {
        proof {
            assert("8"@ =~= seq![digit_char(d as int)]);
        }
        "8"
    } else {
        proof {
            assert("9"@ =~= seq![digit_char(d as int)]);
        }
        "9"
    }
}

/// Writes `n` as exactly `w` decimal digits, most significant first.
fn encode_width(n: u64, w: u8) -> (s: String)
    ensures
        s@ == enc_len(n as nat, w as nat),
    decreases w,
{
    if w == 0 {
        let s = String::new();
        proof {
            assert(s@ =~= enc_len(n as nat, 0));
        }
        s
    } else {
        let mut s = encode_width(n / 10, w - 1);
        let d = digit_str(n % 10);
        s.append(d);
        proof {
            assert(s@ =~= enc_len((n / 10) as nat, (w - 1) as nat).push(
                digit_char((n % 10) as int),
            ));
        }
        s
    }
}

/// Writes `n` in minimal decimal.
pub fn enc_min(n: u64) -> (r: String)
    ensures
        r@ == min_dec(n as nat),
    decreases n,
{
    if n < 10 {
        let d = digit_str(n);
        let s = d.to_owned();
        proof {
            assert(s@ =~= min_dec(n as nat));
        }
        s
    } else {
        let mut s = enc_min(n / 10);
        s.append(digit_str(n % 10));
        proof {
            assert(s@ =~= min_dec((n / 10) as nat).push(digit_char((n % 10) as int)));
        }
        s
    }
}

/// Encodes one mutation as its record.
pub fn encode_command(c: &Command) -> (s: String)
    ensures
        s@ == spec_encode(c@),
        wf_command(c@),
{
    proof {
        lemma_pow10_20();
    }
    match c {
        Command::SET(k, v) => {
            let klen = k.as_str().unicode_len();
            let vlen = v.as_str().unicode_len();
            let mut out = "S".to_owned();
            let a = encode_width(klen as u64, 20);
            out.append(a.as_str());
            let b = encode_width(vlen as u64, 20);
            out.append(b.as_str());
            out.append(k.as_str());
            out.append(v.as_str());
            proof {
                reveal_strlit("S");
                assert("S"@ =~= seq!['S']);
                assert(out@ =~= spec_encode(c@));
            }
            out
        },
        Command::RM(k) => {
            let klen = k.as_str().unicode_len();
            let mut out = "R".to_owned();
            let a = encode_width(klen as u64, 20);
            out.append(a.as_str());
            out.append(k.as_str());
            proof {
                reveal_strlit("R");
                assert("R"@ =~= seq!['R']);
                assert(out@ =~= spec_encode(c@));
            }
            out
        },
    }
}

/// Reads the twenty-digit length field starting at `off`.
fn decode_len20(s: &str, off: usize) -> (r: Option<u64>)
    requires
        off + 20 <= s@.len(),
        s@.len() <= usize::MAX,
    ensures
        match r {
            Some(v) => all_digits(s@.subrange(off as int, off as int + 20)) && v as nat == dec_len(
                s@.subrange(off as int, off as int + 20),
            ),
            None => !(all_digits(s@.subrange(off as int, off as int + 20)) && dec_len(
                s@.subrange(off as int, off as int + 20),
            ) <= u64::MAX),
        },
{
    proof {
        lemma_pow10_20();
    }
    let mut acc: u128 = 0;
    let mut i: usize = 0;
    while i < 20
        invariant
            0 <= i <= 20,
            off + 20 <= s@.len(),
            s@.len() <= usize::MAX,
            all_digits(s@.subrange(off as int, off as int + i as int)),
            acc as nat == dec_len(s@.subrange(off as int, off as int + i as int)),
            acc < pow10(i as nat),
            pow10(20) == 0x56BC75E2D63100000,
        decreases 20 - i,
    {
        let c = s.get_char(off + i);
        let u = c as u32;
        if u < 48 || u > 57 {
            proof {
                assert(s@.subrange(off as int, off as int + 20)[i as int] == s@[off + i]);
                assert(!is_digit(s@[off + i as int]));
            }
            return None;
        }
        let d = (u - 48) as u64;
        proof {
            lemma_pow10_mono((i + 1) as nat, 20);
            assert(pow10((i + 1) as nat) == 10 * pow10(i as nat));
            assert(acc * 10 + d < pow10((i + 1) as nat));
        }
        let ghost prev = s@.subrange(off as int, off as int + i as int);
        acc = acc * 10 + (d as u128);
        i = i + 1;
        proof {
            let cur = s@.subrange(off as int, off as int + i as int);
            assert(cur =~= prev.push(s@[off + i - 1]));
            assert(cur.drop_last() =~= prev);
            assert(is_digit(cur.last()));
            assert(digit_val(cur.last()) == d);
            assert(forall|j: int| 0 <= j < cur.len() ==> is_digit(#[trigger] cur[j]));
        }
    }
    if acc > u64::MAX as u128 {
        None
    } else {
        Some(acc as u64)
    }
}

/// Decodes the record starting at `off`, returning it with the offset one
/// past its end; `None` at the exact end of the stream; an error where no
/// well-formed record starts at `off`.
pub fn decode_record(s: &str, off: usize) -> (r: Result<Option<(Command, usize)>, KVStoreError>)
    requires
        off as int <= s@.len(),
    ensures
        match r {
            Ok(Some((c, end))) => parse_record(s@, off as int) == Some((c@, end as int)) && off
                < end <= s@.len(),
            Ok(None) => off as int == s@.len(),
            Err(e) => (off as int) < s@.len() && parse_record(s@, off as int) is None && (
            e matches KVStoreError::Serde(_)),
        },
{
    proof {
        lemma_pow10_20();
    }
    let n = s.unicode_len();
    if off >= n {
        return Ok(None);
    }
    let tag = s.get_char(off);
    if tag == 'S' {
        if n - off < 41 {
            return Err(KVStoreError::Serde("truncated record".to_owned()));
        }
        let ghost ks = s@.subrange(off as int + 1, off as int + 21);
        let ghost vs = s@.subrange(off as int + 21, off as int + 41);
        let klen = match decode_len20(s, off + 1) {
            Some(x) => x,
            None => {
                proof {
                    lemma_none_when_bad_set_lengths(s@, off as int);
                }
                return Err(KVStoreError::Serde("bad length field".to_owned()));
            },
        };
        let vlen = match decode_len20(s, off + 21) {
            Some(x) => x,
            None => {
                proof {
                    lemma_none_when_bad_set_lengths(s@, off as int);
                }
                return Err(KVStoreError::Serde("bad length field".to_owned()));
            },
        };
        let avail = (n - off - 41) as u64;
        if klen > avail || vlen > avail - klen {
            proof {
                assert(off as int + 41 + dec_len(ks) + dec_len(vs) > s@.len());
            }
            return Err(KVStoreError::Serde("record overruns its segment".to_owned()));
        }
        let kstart = off + 41;
        let kend = kstart + klen as usize;
        let vend = kend + vlen as usize;
        let key = s.substring_char(kstart, kend).to_owned();
        let value = s.substring_char(kend, vend).to_owned();
        let r = Command::SET(key, value);
        proof {
            assert(parse_record(s@, off as int) == Some((r@, vend as int)));
        }
        Ok(Some((r, vend)))
    } else if tag == 'R' {
        if n - off < 21 {
            return Err(KVStoreError::Serde("truncated record".to_owned()));
        }
        let ghost ks = s@.subrange(off as int + 1, off as int + 21);
        let klen = match decode_len20(s, off + 1) {
            Some(x) => x,
            None => {
                proof {
                    lemma_none_when_bad_rm_length(s@, off as int);
                }
                return Err(KVStoreError::Serde("bad length field".to_owned()));
            },
        };
        let avail = (n - off - 21) as u64;
        if klen > avail {
            proof {
                assert(off as int + 21 + dec_len(ks) > s@.len());
            }
            return Err(KVStoreError::Serde("record overruns its segment".to_owned()));
        }
        let kstart = off + 21;
        let kend = kstart + klen as usize;
        let key = s.substring_char(kstart, kend).to_owned();
        let r = Command::RM(key);
        proof {
            assert(parse_record(s@, off as int) == Some((r@, kend as int)));
        }
        Ok(Some((r, kend)))
    } else {
        Err(KVStoreError::Serde("unknown record tag".to_owned()))
    }
}

/// With a length field that is not all digits or does not fit a machine
/// integer, no `SET` record parses: either the digits test fails, or the
/// lengths are so large that the record cannot fit any machine-sized stream.
proof fn lemma_none_when_bad_set_lengths(s: Seq<char>, off: int)
    requires
        0 <= off < s.len(),
        s.len() <= usize::MAX,
        s[off] == 'S',
        off + 41 <= s.len(),
        !(all_digits(s.subrange(off + 1, off + 21)) && dec_len(s.subrange(off + 1, off + 21))
            <= u64::MAX) || !(all_digits(s.subrange(off + 21, off + 41)) && dec_len(
            s.subrange(off + 21, off + 41),
        ) <= u64::MAX),
    ensures
        parse_record(s, off) is None,
{
    let ks = s.subrange(off + 1, off + 21);
    let vs = s.subrange(off + 21, off + 41);
    if all_digits(ks) && all_digits(vs) {
        assert(dec_len(ks) > u64::MAX || dec_len(vs) > u64::MAX);
        assert(off + 41 + dec_len(ks) + dec_len(vs) > s.len());
    }
}

/// The `RM` counterpart of [`lemma_none_when_bad_set_lengths`].
proof fn lemma_none_when_bad_rm_length(s: Seq<char>, off: int)
    requires
        0 <= off < s.len(),
        s.len() <= usize::MAX,
        s[off] == 'R',
        off + 21 <= s.len(),
        !(all_digits(s.subrange(off + 1, off + 21)) && dec_len(s.subrange(off + 1, off + 21))
            <= u64::MAX),
    ensures
        parse_record(s, off) is None,
{
    let ks = s.subrange(off + 1, off + 21);
    if all_digits(ks) {
        assert(dec_len(ks) > u64::MAX);
        assert(off + 21 + dec_len(ks) > s.len());
    }
}

} // verus!
