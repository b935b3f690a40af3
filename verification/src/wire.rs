//! The wire codec: the JSON envelope the remote service speaks, as a
//! grammar on bytes.
//!
//! Requests are encoded and responses decoded in the canonical compact
//! form the service uses: no whitespace, fields in a fixed order, no
//! escape sequences in text. Every encoder's contract states the exact
//! byte sequence produced; every decoder's contract states both that an
//! accepted input is the canonical form of the returned value and that
//! every canonical form is accepted.

use vstd::arithmetic::div_mod::lemma_fundamental_div_mod;
use vstd::prelude::*;

verus! {

/// ASCII `0`.
pub const D0: u8 = 48;

/// ASCII `9`.
pub const D9: u8 = 57;

/// ASCII `-`.
pub const MINUS: u8 = 45;

/// An ASCII decimal digit.
pub open spec fn is_digit(b: u8) -> bool {
    D0 <= b <= D9
}

/// The decimal digits of `n`, most significant first, no leading zero.
pub open spec fn dec_digits(n: nat) -> Seq<u8>
    decreases n,
{
    if n < 10 {
        seq![(D0 + n) as u8]
    } else {
        dec_digits(n / 10).push((D0 + n % 10) as u8)
    }
}

/// The wire form of a signed integer: a minus sign where negative,
/// then the decimal digits of the magnitude.
pub open spec fn int_wire(n: int) -> Seq<u8> {
    if n < 0 {
        seq![MINUS] + dec_digits((-n) as nat)
    } else {
        dec_digits(n as nat)
    }
}

/// The value of a sequence of decimal digits.
pub open spec fn digits_val(s: Seq<u8>) -> nat
    decreases s.len(),
{
    if s.len() == 0 {
        0
    } else {
        digits_val(s.drop_last()) * 10 + (if is_digit(s.last()) {
            (s.last() - D0) as nat
        } else {
            0
        })
    }
}

/// Shape of a canonical digit string: non-empty, digits only, no
/// leading zero unless the value is zero, and it evaluates back to the
/// value it encodes.
pub proof fn lemma_dec_digits_shape(n: nat)
    ensures
        dec_digits(n).len() >= 1,
        forall|i: int| 0 <= i < dec_digits(n).len() ==> is_digit(#[trigger] dec_digits(n)[i]),
        n > 0 ==> dec_digits(n)[0] != D0,
        n == 0 ==> dec_digits(n) == seq![D0],
        digits_val(dec_digits(n)) == n,
    decreases n,
{
    if n < 10 {
        let s0 = dec_digits(n);
        assert(s0 == seq![(D0 + n) as u8]);
        assert(s0.last() == (D0 + n) as u8);
        assert(s0.drop_last() =~= Seq::<u8>::empty());
        assert(digits_val(s0.drop_last()) == 0);
        assert(digits_val(s0) == (s0.last() - D0) as nat);
    } else {
        lemma_dec_digits_shape(n / 10);
        lemma_fundamental_div_mod(n as int, 10);
        let d = dec_digits(n / 10);
        assert(dec_digits(n) == d.push((D0 + n % 10) as u8));
        assert(dec_digits(n).drop_last() =~= d);
        assert(dec_digits(n).last() == (D0 + n % 10) as u8);
        assert(digits_val(dec_digits(n)) == digits_val(d) * 10 + (n % 10));
        assert(dec_digits(n)[0] == d[0]);
        assert(forall|i: int|
            0 <= i < dec_digits(n).len() ==> is_digit(#[trigger] dec_digits(n)[i]));
    }
}

/// A non-empty digit string without a leading zero is positive.
pub proof fn lemma_digits_val_pos(s: Seq<u8>)
    requires
        s.len() >= 1,
        forall|i: int| 0 <= i < s.len() ==> is_digit(#[trigger] s[i]),
        s[0] != D0,
    ensures
        digits_val(s) >= 1,
    decreases s.len(),
{
    if s.len() == 1 {
        assert(is_digit(s[0]));
    } else {
        assert(s.drop_last()[0] == s[0]);
        lemma_digits_val_pos(s.drop_last());
    }
}

/// A canonical digit string is the digit string of its own value.
pub proof fn lemma_digits_canonical(s: Seq<u8>)
    requires
        s.len() >= 1,
        forall|i: int| 0 <= i < s.len() ==> is_digit(#[trigger] s[i]),
        s[0] != D0 || s.len() == 1,
    ensures
        dec_digits(digits_val(s)) == s,
    decreases s.len(),
{
    if s.len() == 1 {
        assert(s.drop_last() =~= Seq::<u8>::empty());
        assert(digits_val(s.drop_last()) == 0);
        assert(s.last() == s[0]);
        assert(digits_val(s) == (s[0] - D0) as nat);
        assert(dec_digits(digits_val(s)) =~= s);
    } else {
        let p = s.drop_last();
        assert(p[0] == s[0]);
        lemma_digits_canonical(p);
        lemma_digits_val_pos(p);
        let v = digits_val(s);
        let d = (s.last() - D0) as nat;
        assert(v == digits_val(p) * 10 + d);
        assert(v >= 10);
        lemma_fundamental_div_mod(v as int, 10);
        assert(v / 10 == digits_val(p)) by {
            lemma_fundamental_div_mod(v as int, 10);
            assert(v == digits_val(p) * 10 + d);
            assert(0 <= d < 10);
        };
        assert(v % 10 == d);
        assert(dec_digits(v) == dec_digits(digits_val(p)).push((D0 + v % 10) as u8));
        assert(dec_digits(v) =~= s);
    }
}

/// A prefix of a digit string never evaluates above the whole.
pub proof fn lemma_digits_val_prefix(s: Seq<u8>, m: int)
    requires
        0 <= m <= s.len(),
    ensures
        digits_val(s.take(m)) <= digits_val(s),
    decreases s.len(),
{
    if m < s.len() {
        assert(s.drop_last().take(m) =~= s.take(m));
        lemma_digits_val_prefix(s.drop_last(), m);
    } else {
        assert(s.take(m) =~= s);
    }
}

/// Two values with the same wire form are equal.
pub proof fn lemma_int_wire_injective(a: int, b: int)
    requires
        int_wire(a) == int_wire(b),
    ensures
        a == b,
{
    lemma_dec_digits_shape(if a < 0 {
        (-a) as nat
    } else {
        a as nat
    });
    lemma_dec_digits_shape(if b < 0 {
        (-b) as nat
    } else {
        b as nat
    });
    if a < 0 && b >= 0 {
        assert(int_wire(a)[0] == MINUS);
        assert(is_digit(int_wire(b)[0]));
        assert(false);
    } else if a >= 0 && b < 0 {
        assert(int_wire(b)[0] == MINUS);
        assert(is_digit(int_wire(a)[0]));
        assert(false);
    } else if a >= 0 && b >= 0 {
        assert(digits_val(dec_digits(a as nat)) == digits_val(dec_digits(b as nat)));
    } else {
        assert(int_wire(a).drop_first() =~= dec_digits((-a) as nat));
        assert(int_wire(b).drop_first() =~= dec_digits((-b) as nat));
        assert(digits_val(dec_digits((-a) as nat)) == digits_val(dec_digits((-b) as nat)));
    }
}

/// Append the decimal digits of `n` to `out`.
pub fn write_u64(out: &mut Vec<u8>, n: u64)
    ensures
        final(out)@ == old(out)@ + dec_digits(n as nat),
    decreases n,
{
    if n < 10 {
        out.push(D0 + n as u8);
        assert(out@ =~= old(out)@ + dec_digits(n as nat));
    } else {
        write_u64(out, n / 10);
        out.push(D0 + (n % 10) as u8);
        assert(out@ =~= old(out)@ + dec_digits(n as nat));
    }
}

/// Append the wire form of `n` to `out`.
pub fn write_i64(out: &mut Vec<u8>, n: i64)
    ensures
        final(out)@ == old(out)@ + int_wire(n as int),
{
    if n < 0 {
        out.push(MINUS);
        let m: u64 = (-(n + 1)) as u64 + 1;
        assert(m as nat == (-(n as int)) as nat);
        write_u64(out, m);
        assert(out@ =~= old(out)@ + int_wire(n as int));
    } else {
        write_u64(out, n as u64);
    }
}

/// Scan a canonical unsigned decimal in `s[from..to]`, maximal within
/// the range: the accepted run is the digit string of the returned
/// value, and every value whose digit string sits at `from` followed by
/// a non-digit (or the range end) is accepted.
pub fn parse_u64_range(s: &Vec<u8>, from: usize, to: usize) -> (r: Option<(u64, usize)>)
    requires
        from <= to <= s@.len(),
    ensures
        r matches Some((v, end)) ==> from < end <= to && s@.subrange(from as int, end as int)
            == dec_digits(v as nat) && (end == to || !is_digit(s@[end as int])),
        forall|v: u64, k: int|
            from <= k <= to && s@.subrange(from as int, k) == dec_digits(v as nat) && (k == to
                || !is_digit(s@[k])) ==> r == Some((v, k as usize)),
    {
    proof {
        broadcast use vstd::seq_lib::group_seq_properties;

    }
    if from >= to || !(D0 <= s[from] && s[from] <= D9) {
        proof {
            assert forall|v: u64, k: int|
                from <= k <= to && s@.subrange(from as int, k) == dec_digits(v as nat) && (k == to
                    || !is_digit(s@[k])) implies false by {
                lemma_dec_digits_shape(v as nat);
                assert(s@.subrange(from as int, k)[0] == s@[from as int]);
            }
        }
        return None;
    }
    let mut e: usize = from;
    let mut acc: u64 = 0;
    while e < to && D0 <= s[e] && s[e] <= D9
        invariant
            from <= e <= to <= s@.len(),
            forall|j: int| from <= j < e ==> is_digit(#[trigger] s@[j]),
            acc as nat == digits_val(s@.subrange(from as int, e as int)),
        decreases to - e,
    {
        let d: u64 = (s[e] - D0) as u64;
        if acc > (u64::MAX - d) / 10 {
            proof {
                let run = s@.subrange(from as int, e as int + 1);
                assert(run.drop_last() =~= s@.subrange(from as int, e as int));
                assert(is_digit(run.last()));
                assert(digits_val(run) == acc * 10 + d);
                assert(digits_val(run) > u64::MAX);
                assert forall|v: u64, k: int|
                    from <= k <= to && s@.subrange(from as int, k) == dec_digits(v as nat) && (k
                        == to || !is_digit(s@[k])) implies false by {
                    lemma_dec_digits_shape(v as nat);
                    if k <= e {
                        assert(is_digit(s@[k]));
                        assert(k < to);
                    } else {
                        let w = s@.subrange(from as int, k);
                        assert(w.take(e + 1 - from) =~= run);
                        lemma_digits_val_prefix(w, e + 1 - from);
                        assert(digits_val(w) == v as nat);
                        assert(v as nat >= digits_val(run));
                    }
                }
            }
            return None;
        }
        proof {
            let run = s@.subrange(from as int, e as int + 1);
            assert(run.drop_last() =~= s@.subrange(from as int, e as int));
            assert(run.last() == s@[e as int]);
        }
        acc = acc * 10 + d;
        e = e + 1;
    }
    if s[from] == D0 && e > from + 1 {
        proof {
            assert forall|v: u64, k: int|
                from <= k <= to && s@.subrange(from as int, k) == dec_digits(v as nat) && (k == to
                    || !is_digit(s@[k])) implies false by {
                lemma_dec_digits_shape(v as nat);
                assert(s@.subrange(from as int, k)[0] == s@[from as int]);
                assert(v == 0);
                assert(k == from + 1);
                assert(is_digit(s@[k]));
                assert(k < to);
            }
        }
        return None;
    }
    proof {
        let run = s@.subrange(from as int, e as int);
        assert(run[0] == s@[from as int]);
        lemma_digits_canonical(run);
        assert forall|v: u64, k: int|
            from <= k <= to && s@.subrange(from as int, k) == dec_digits(v as nat) && (k == to
                || !is_digit(s@[k])) implies Some((acc, e)) == Some((v, k as usize)) by {
            lemma_dec_digits_shape(v as nat);
            if k < e {
                assert(is_digit(s@[k]));
                assert(k < to);
                assert(false);
            } else if k > e {
                assert(s@.subrange(from as int, k)[e - from] == s@[e as int]);
                assert(is_digit(s@[e as int]));
                assert(e < to);
                assert(false);
            } else {
                assert(digits_val(dec_digits(v as nat)) == v as nat);
                assert(v as nat == acc as nat);
            }
        }
    }
    Some((acc, e))
}

/// Scan a canonical signed decimal in `s[from..to]`, maximal within
/// the range, in the sense of [`parse_u64_range`].
pub fn parse_i64_range(s: &Vec<u8>, from: usize, to: usize) -> (r: Option<(i64, usize)>)
    requires
        from <= to <= s@.len(),
    ensures
        r matches Some((v, end)) ==> from < end <= to && s@.subrange(from as int, end as int)
            == int_wire(v as int) && (end == to || !is_digit(s@[end as int])),
        forall|v: i64, k: int|
            from <= k <= to && s@.subrange(from as int, k) == int_wire(v as int) && (k == to
                || !is_digit(s@[k])) ==> r == Some((v, k as usize)),
{
    if from < to && s[from] == MINUS {
        let r = parse_u64_range(s, from + 1, to);
        match r {
            Some((m, end)) => {
                if m == 0 || m > 9223372036854775808u64 {
                    proof {
                        assert forall|v: i64, k: int|
                            from <= k <= to && s@.subrange(from as int, k) == int_wire(v as int)
                                && (k == to || !is_digit(s@[k])) implies false by {
                            lemma_neg_parse(s@, from as int, k, v as int);
                            assert(s@.subrange(from as int + 1, k) == dec_digits((-v) as nat));
                            assert(r == Some(((-(v as int)) as u64, k as usize)));
                        }
                    }
                    None
                } else {
                    let v: i64 = if m == 9223372036854775808u64 {
                        i64::MIN
                    } else {
                        -(m as i64)
                    };
                    proof {
                        assert(s@.subrange(from as int, end as int) =~= seq![MINUS] + s@.subrange(
                            from as int + 1,
                            end as int,
                        ));
                        assert(s@.subrange(from as int, end as int) == int_wire(v as int));
                        assert forall|w: i64, k: int|
                            from <= k <= to && s@.subrange(from as int, k) == int_wire(w as int)
                                && (k == to || !is_digit(s@[k])) implies Some((v, end)) == Some(
                            (w, k as usize),
                        ) by {
                            lemma_neg_parse(s@, from as int, k, w as int);
                            assert(s@.subrange(from as int + 1, k) == dec_digits((-w) as nat));
                            assert(r == Some(((-(w as int)) as u64, k as usize)));
                        }
                    }
                    Some((v, end))
                }
            },
            None => {
                proof {
                    assert forall|v: i64, k: int|
                        from <= k <= to && s@.subrange(from as int, k) == int_wire(v as int) && (k
                            == to || !is_digit(s@[k])) implies false by {
                        lemma_neg_parse(s@, from as int, k, v as int);
                        assert(s@.subrange(from as int + 1, k) == dec_digits((-v) as nat));
                        assert(r == Some(((-(v as int)) as u64, k as usize)));
                    }
                }
                None
            },
        }
    } else {
        let r = parse_u64_range(s, from, to);
        match r {
            Some((m, end)) => {
                if m > i64::MAX as u64 {
                    proof {
                        assert forall|v: i64, k: int|
                            from <= k <= to && s@.subrange(from as int, k) == int_wire(v as int)
                                && (k == to || !is_digit(s@[k])) implies false by {
                            lemma_nonneg_parse(s@, from as int, k, v as int);
                            assert(r == Some((v as u64, k as usize)));
                        }
                    }
                    None
                } else {
                    proof {
                        assert forall|w: i64, k: int|
                            from <= k <= to && s@.subrange(from as int, k) == int_wire(w as int)
                                && (k == to || !is_digit(s@[k])) implies Some((m as i64, end))
                            == Some((w, k as usize)) by {
                            lemma_nonneg_parse(s@, from as int, k, w as int);
                            assert(r == Some((w as u64, k as usize)));
                        }
                    }
                    Some((m as i64, end))
                }
            },
            None => {
                proof {
                    assert forall|v: i64, k: int|
                        from <= k <= to && s@.subrange(from as int, k) == int_wire(v as int) && (k
                            == to || !is_digit(s@[k])) implies false by {
                        lemma_nonneg_parse(s@, from as int, k, v as int);
                        assert(r == Some((v as u64, k as usize)));
                    }
                }
                None
            },
        }
    }
}

/// In a range that does not begin with a minus sign, a wire integer is
/// non-negative and its digits sit at the start of the range.
proof fn lemma_nonneg_parse(s: Seq<u8>, from: int, k: int, v: int)
    requires
        0 <= from <= k <= s.len(),
        s.subrange(from, k) == int_wire(v),
        k > from ==> s[from] != MINUS,
    ensures
        v >= 0,
        s.subrange(from, k) == dec_digits(v as nat),
{
    lemma_dec_digits_shape(if v < 0 {
        (-v) as nat
    } else {
        v as nat
    });
    assert(k - from == int_wire(v).len());
    assert(int_wire(v).len() >= 1);
    if v < 0 {
        assert(s.subrange(from, k)[0] == s[from]);
        assert(int_wire(v)[0] == MINUS);
        assert(false);
    }
}

/// In a range that begins with a minus sign, a wire integer is
/// negative and the digits of its magnitude follow the sign.
proof fn lemma_neg_parse(s: Seq<u8>, from: int, k: int, v: int)
    requires
        0 <= from <= k <= s.len(),
        s.subrange(from, k) == int_wire(v),
        from < s.len(),
        s[from] == MINUS,
    ensures
        v < 0,
        k > from + 1,
        s.subrange(from + 1, k) == dec_digits((-v) as nat),
{
    lemma_dec_digits_shape(if v < 0 {
        (-v) as nat
    } else {
        v as nat
    });
    assert(k - from == int_wire(v).len());
    assert(int_wire(v).len() >= 1);
    assert(s.subrange(from, k)[0] == s[from]);
    if v >= 0 {
        assert(int_wire(v)[0] == dec_digits(v as nat)[0]);
        assert(is_digit(dec_digits(v as nat)[0]));
        assert(false);
    }
    assert(s.subrange(from + 1, k) =~= s.subrange(from, k).drop_first());
    assert(s.subrange(from, k).drop_first() =~= dec_digits((-v) as nat));
}

/// ASCII `"`.
pub const QUOTE: u8 = 34;

/// ASCII `\\`.
pub const BSLASH: u8 = 92;

/// ASCII `{`.
pub const LBRACE: u8 = 123;

/// ASCII `}`.
pub const RBRACE: u8 = 125;

/// ASCII `[`.
pub const LBRACK: u8 = 91;

/// ASCII `]`.
pub const RBRACK: u8 = 93;

/// ASCII `,`.
pub const COMMA: u8 = 44;

/// The bytes of `{"ok":true,"result":`.
pub open spec fn ok_prefix() -> Seq<u8> {
    seq![123u8, 34, 111, 107, 34, 58, 116, 114, 117, 101, 44, 34, 114, 101, 115, 117, 108, 116, 34, 58]
}

/// The bytes of `{"ok":false,"description":"`.
pub open spec fn err_prefix() -> Seq<u8> {
    seq![123u8, 34, 111, 107, 34, 58, 102, 97, 108, 115, 101, 44, 34, 100, 101, 115, 99, 114, 105, 112, 116, 105, 111, 110, 34, 58, 34]
}

/// The bytes of `,"parameters":`.
pub open spec fn params_key() -> Seq<u8> {
    seq![44u8, 34, 112, 97, 114, 97, 109, 101, 116, 101, 114, 115, 34, 58]
}

/// The success envelope: the payload framed by the fixed prefix and a
/// closing brace.
pub open spec fn success_wire(payload: Seq<u8>) -> Seq<u8> {
    ok_prefix() + payload + seq![RBRACE]
}

/// A byte that may stand unescaped in wire text: printable ASCII other
/// than the quote and the backslash.
pub open spec fn plain_byte(b: u8) -> bool {
    32 <= b <= 126 && b != QUOTE && b != BSLASH
}

/// Text of unescaped bytes only.
pub open spec fn plain_text(s: Seq<u8>) -> bool {
    forall|i: int| 0 <= i < s.len() ==> plain_byte(#[trigger] s[i])
}

/// The failure envelope: the quoted description, then the raw bytes of
/// the optional parameters object, framed by the fixed prefix and a
/// closing brace.
pub open spec fn error_wire(desc: Seq<u8>, params: Option<Seq<u8>>) -> Seq<u8> {
    err_prefix() + desc + seq![QUOTE] + (match params {
        None => Seq::<u8>::empty(),
        Some(p) => params_key() + p,
    }) + seq![RBRACE]
}

/// A response envelope, split at the frame: the payload and the
/// parameters stay raw for the layer above to decode.
pub enum Envelope {
    Success { payload: Vec<u8> },
    Failure { description: Vec<u8>, parameters: Option<Vec<u8>> },
}

/// Copy of `s[from..to]`.
pub fn slice_range(s: &Vec<u8>, from: usize, to: usize) -> (r: Vec<u8>)
    requires
        from <= to <= s@.len(),
    ensures
        r@ == s@.subrange(from as int, to as int),
{
    let mut r: Vec<u8> = Vec::new();
    proof {
        assert(r@ =~= s@.subrange(from as int, from as int));
    }
    let mut i = from;
    while i < to
        invariant
            from <= i <= to <= s@.len(),
            r@ == s@.subrange(from as int, i as int),
        decreases to - i,
    {
        r.push(s[i]);
        proof {
            assert(s@.subrange(from as int, i as int).push(s@[i as int]) =~= s@.subrange(
                from as int,
                i as int + 1,
            ));
        }
        i = i + 1;
    }
    r
}

/// Whether `pat` sits in `s` at position `at`.
pub fn match_at(s: &Vec<u8>, at: usize, pat: &Vec<u8>) -> (b: bool)
    requires
        at <= s@.len(),
    ensures
        b == (at + pat@.len() <= s@.len() && s@.subrange(at as int, at as int + pat@.len() as int)
            == pat@),
{
    let n = s.len();
    if pat.len() > n - at {
        return false;
    }
    let mut i: usize = 0;
    while i < pat.len()
        invariant
            at + pat@.len() <= s@.len(),
            s@.len() == n,
            0 <= i <= pat@.len(),
            forall|j: int| 0 <= j < i ==> s@[at + j] == pat@[j],
        decreases pat@.len() - i,
    {
        if s[at + i] != pat[i] {
            proof {
                assert(s@.subrange(at as int, at as int + pat@.len() as int)[i as int] == s@[at
                    + i]);
            }
            return false;
        }
        i = i + 1;
    }
    proof {
        assert(s@.subrange(at as int, at as int + pat@.len() as int) =~= pat@);
    }
    true
}

/// The bytes of [`ok_prefix`], as a vector.
pub fn ok_prefix_vec() -> (v: Vec<u8>)
    ensures
        v@ == ok_prefix(),
{
    let mut v: Vec<u8> = Vec::new();
    v.push(123);
    v.push(34);
    v.push(111);
    v.push(107);
    v.push(34);
    v.push(58);
    v.push(116);
    v.push(114);
    v.push(117);
    v.push(101);
    v.push(44);
    v.push(34);
    v.push(114);
    v.push(101);
    v.push(115);
    v.push(117);
    v.push(108);
    v.push(116);
    v.push(34);
    v.push(58);
    proof {
        assert(v@ =~= ok_prefix());
    }
    v
}

/// The bytes of [`err_prefix`], as a vector.
pub fn err_prefix_vec() -> (v: Vec<u8>)
    ensures
        v@ == err_prefix(),
{
    let mut v: Vec<u8> = Vec::new();
    v.push(123);
    v.push(34);
    v.push(111);
    v.push(107);
    v.push(34);
    v.push(58);
    v.push(102);
    v.push(97);
    v.push(108);
    v.push(115);
    v.push(101);
    v.push(44);
    v.push(34);
    v.push(100);
    v.push(101);
    v.push(115);
    v.push(99);
    v.push(114);
    v.push(105);
    v.push(112);
    v.push(116);
    v.push(105);
    v.push(111);
    v.push(110);
    v.push(34);
    v.push(58);
    v.push(34);
    proof {
        assert(v@ =~= err_prefix());
    }
    v
}

/// The bytes of [`params_key`], as a vector.
pub fn params_key_vec() -> (v: Vec<u8>)
    ensures
        v@ == params_key(),
{
    let mut v: Vec<u8> = Vec::new();
    v.push(44);
    v.push(34);
    v.push(112);
    v.push(97);
    v.push(114);
    v.push(97);
    v.push(109);
    v.push(101);
    v.push(116);
    v.push(101);
    v.push(114);
    v.push(115);
    v.push(34);
    v.push(58);
    proof {
        assert(v@ =~= params_key());
    }
    v
}


/// Split a response body at the envelope frame. The accepted inputs
/// are exactly the canonical success and failure envelopes: an
/// accepted body is the envelope of the returned parts, and the
/// envelope of any parts is accepted and returns them.
#[verifier::rlimit(100)]
pub fn parse_envelope(body: &Vec<u8>) -> (r: Option<Envelope>)
    ensures
        r matches Some(Envelope::Success { payload }) ==> body@ == success_wire(payload@),
        forall|p: Seq<u8>|
            body@ == success_wire(p) ==> (r matches Some(Envelope::Success { payload })
                && payload@ == p),
        r matches Some(Envelope::Failure { description, parameters }) ==> plain_text(description@)
            && body@ == error_wire(
            description@,
            match parameters {
                Some(q) => Some(q@),
                None => None,
            },
        ),
        forall|d: Seq<u8>, pm: Option<Seq<u8>>|
            plain_text(d) && body@ == error_wire(d, pm) ==> (r matches Some(
                Envelope::Failure { description, parameters },
            ) && description@ == d && (match pm {
                Some(p) => parameters matches Some(q) && q@ == p,
                None => parameters is None,
            })),
{
    let okp = ok_prefix_vec();
    proof {
        assert(ok_prefix()[6] != err_prefix()[6]);
    }
    if match_at(body, 0, &okp) {
        proof {
            assert forall|d: Seq<u8>, pm: Option<Seq<u8>>|
                plain_text(d) && body@ == error_wire(d, pm) implies false by {
                assert(body@[6] == ok_prefix()[6]);
                assert(body@[6] == err_prefix()[6]);
            }
        }
        if body.len() > okp.len() && body[body.len() - 1] == RBRACE {
            let payload = slice_range(body, okp.len(), body.len() - 1);
            proof {
                assert(body@ =~= success_wire(payload@));
                assert forall|p: Seq<u8>| body@ == success_wire(p) implies payload@ == p by {
                    assert(p =~= body@.subrange(20, body@.len() - 1));
                }
            }
            Some(Envelope::Success { payload })
        } else {
            proof {
                assert forall|p: Seq<u8>| body@ == success_wire(p) implies false by {
                    assert(body@.len() == 21 + p.len());
                    assert(body@[body@.len() - 1] == RBRACE);
                }
            }
            None
        }
    } else {
        proof {
            assert forall|p: Seq<u8>| body@ == success_wire(p) implies false by {
                assert(body@.subrange(0, 20) =~= ok_prefix());
            }
        }
        let errp = err_prefix_vec();
        if !match_at(body, 0, &errp) {
            proof {
                assert forall|d: Seq<u8>, pm: Option<Seq<u8>>|
                    plain_text(d) && body@ == error_wire(d, pm) implies false by {
                    assert(body@.subrange(0, 27) =~= err_prefix());
                }
            }
            return None;
        }
        let start = errp.len();
        let mut e = start;
        while e < body.len() && 32 <= body[e] && body[e] <= 126 && body[e] != QUOTE && body[e]
            != BSLASH
            invariant
                27 <= start <= e <= body@.len(),
                start == 27,
                forall|j: int| start <= j < e ==> plain_byte(#[trigger] body@[j]),
            decreases body@.len() - e,
        {
            e = e + 1;
        }
        if e >= body.len() || body[e] != QUOTE {
            proof {
                assert forall|d: Seq<u8>, pm: Option<Seq<u8>>|
                    plain_text(d) && body@ == error_wire(d, pm) implies false by {
                    lemma_error_wire_quote(body@, d, pm, e as int);
                }
            }
            return None;
        }
        let desc = slice_range(body, start, e);
        let ghost dq: int = e as int;
        let pos = e + 1;
        if pos == body.len() - 1 && body[body.len() - 1] == RBRACE {
            proof {
                assert(plain_text(desc@));
                assert(body@ =~= error_wire(desc@, None));
                assert forall|d: Seq<u8>, pm: Option<Seq<u8>>|
                    plain_text(d) && body@ == error_wire(d, pm) implies d == desc@ && pm is None by {
                    lemma_error_wire_quote(body@, d, pm, dq);
                    assert(d =~= body@.subrange(27, dq));
                    if pm is Some {
                        assert(body@[dq + 1] == params_key()[0]);
                        assert(body@[dq + 1] == RBRACE);
                    }
                }
            }
            return Some(Envelope::Failure { description: desc, parameters: None });
        }
        let pk = params_key_vec();
        if match_at(body, pos, &pk) && body.len() > pos + pk.len() && body[body.len() - 1]
            == RBRACE {
            let params = slice_range(body, pos + pk.len(), body.len() - 1);
            proof {
                assert(plain_text(desc@));
                assert(body@ =~= error_wire(desc@, Some(params@)));
                assert forall|d: Seq<u8>, pm: Option<Seq<u8>>|
                    plain_text(d) && body@ == error_wire(d, pm) implies d == desc@ && (pm
                    matches Some(p) && p == params@) by {
                    lemma_error_wire_quote(body@, d, pm, dq);
                    assert(d =~= body@.subrange(27, dq));
                    match pm {
                        None => {
                            assert(body@.len() == dq + 2);
                            assert(body@[dq + 1] == params_key()[0]);
                            assert(body@[dq + 1] == RBRACE);
                        },
                        Some(p) => {
                            assert(p =~= body@.subrange(dq + 1 + 14, body@.len() - 1));
                        },
                    }
                }
            }
            return Some(Envelope::Failure { description: desc, parameters: Some(params) });
        }
        proof {
            assert forall|d: Seq<u8>, pm: Option<Seq<u8>>|
                plain_text(d) && body@ == error_wire(d, pm) implies false by {
                lemma_error_wire_quote(body@, d, pm, dq);
                match pm {
                    None => {
                        assert(body@.len() == dq + 2);
                        assert(body@[dq + 1] == RBRACE);
                    },
                    Some(p) => {
                        assert(body@.subrange(dq + 1, dq + 1 + 14) =~= params_key());
                        assert(body@.len() > dq + 1 + 14);
                        assert(body@[body@.len() - 1] == RBRACE);
                    },
                }
            }
        }
        None
    }
}

/// In a failure envelope with a plain description, the first byte at
/// or after the prefix that is not plain is the closing quote of the
/// description.
proof fn lemma_error_wire_quote(body: Seq<u8>, d: Seq<u8>, pm: Option<Seq<u8>>, e: int)
    requires
        plain_text(d),
        body == error_wire(d, pm),
        27 <= e <= body.len(),
        forall|j: int| 27 <= j < e ==> plain_byte(#[trigger] body[j]),
        e == body.len() || !plain_byte(body[e]),
    ensures
        e == 27 + d.len(),
        body[e] == QUOTE,
        body.len() >= e + 2,
        d == body.subrange(27, e),
{
    let q: int = 27 + d.len() as int;
    assert(body[q] == QUOTE);
    assert(!plain_byte(QUOTE));
    assert(body.len() >= q + 2);
    if e < q {
        assert(body[e] == d[e - 27]);
        assert(plain_byte(d[e - 27]));
        assert(false);
    }
    if e > q {
        assert(plain_byte(body[q]));
        assert(false);
    }
    assert(d =~= body.subrange(27, e));
}

/// The bytes of `true`.
pub open spec fn true_lit() -> Seq<u8> {
    seq![116u8, 114, 117, 101]
}

/// The bytes of `"migrate_to_chat_id":`.
pub open spec fn mig_key() -> Seq<u8> {
    seq![34u8, 109, 105, 103, 114, 97, 116, 101, 95, 116, 111, 95, 99, 104, 97, 116, 95, 105, 100, 34, 58]
}

/// The bytes of `"retry_after":`.
pub open spec fn retry_key() -> Seq<u8> {
    seq![34u8, 114, 101, 116, 114, 121, 95, 97, 102, 116, 101, 114, 34, 58]
}

/// The wire form of the parameters object a remote failure may carry:
/// the two known fields in a fixed order, each present only when set.
pub open spec fn params_wire(p: crate::errors::ResponseParameters) -> Seq<u8> {
    match (p.migrate_to_chat_id, p.retry_after) {
        (None, None) => seq![LBRACE, RBRACE],
        (Some(m), None) => seq![LBRACE] + mig_key() + int_wire(m as int) + seq![RBRACE],
        (None, Some(t)) => seq![LBRACE] + retry_key() + int_wire(t as int) + seq![RBRACE],
        (Some(m), Some(t)) => seq![LBRACE] + mig_key() + int_wire(m as int) + seq![COMMA]
            + retry_key() + int_wire(t as int) + seq![RBRACE],
    }
}

/// The bytes of [`mig_key`], as a vector.
pub fn mig_key_vec() -> (v: Vec<u8>)
    ensures
        v@ == mig_key(),
{
    let mut v: Vec<u8> = Vec::new();
    v.push(34);
    v.push(109);
    v.push(105);
    v.push(103);
    v.push(114);
    v.push(97);
    v.push(116);
    v.push(101);
    v.push(95);
    v.push(116);
    v.push(111);
    v.push(95);
    v.push(99);
    v.push(104);
    v.push(97);
    v.push(116);
    v.push(95);
    v.push(105);
    v.push(100);
    v.push(34);
    v.push(58);
    proof {
        assert(v@ =~= mig_key());
    }
    v
}

/// The bytes of [`retry_key`], as a vector.
pub fn retry_key_vec() -> (v: Vec<u8>)
    ensures
        v@ == retry_key(),
{
    let mut v: Vec<u8> = Vec::new();
    v.push(34);
    v.push(114);
    v.push(101);
    v.push(116);
    v.push(114);
    v.push(121);
    v.push(95);
    v.push(97);
    v.push(102);
    v.push(116);
    v.push(101);
    v.push(114);
    v.push(34);
    v.push(58);
    proof {
        assert(v@ =~= retry_key());
    }
    v
}


/// Decode the parameters object of a remote failure. The accepted
/// inputs are exactly the canonical forms: an accepted input is the
/// wire form of the returned value, and the wire form of any value is
/// accepted and returns it.
#[verifier::rlimit(100)]
pub fn decode_params(s: &Vec<u8>) -> (r: Option<crate::errors::ResponseParameters>)
    ensures
        r matches Some(p) ==> s@ == params_wire(p),
        forall|p: crate::errors::ResponseParameters| s@ == params_wire(p) ==> r == Some(p),
{
    let n = s.len();
    if n < 2 || s[0] != LBRACE || s[n - 1] != RBRACE {
        proof {
            assert forall|p: crate::errors::ResponseParameters|
                s@ == params_wire(p) implies false by {
                lemma_params_shape(s@, p);
            }
        }
        return None;
    }
    if n == 2 {
        let none = crate::errors::ResponseParameters { migrate_to_chat_id: None, retry_after: None };
        proof {
            assert(s@ =~= params_wire(none));
            assert forall|p: crate::errors::ResponseParameters|
                s@ == params_wire(p) implies p == none by {
                lemma_params_shape(s@, p);
                if p.migrate_to_chat_id is Some {
                    assert(s@.subrange(1, 22)[0] == s@[1]);
                    assert(s@[1] == RBRACE);
                } else if p.retry_after is Some {
                    assert(s@.subrange(1, 15)[0] == s@[1]);
                    assert(s@[1] == RBRACE);
                }
            }
        }
        return Some(none);
    }
    let migk = mig_key_vec();
    let retk = retry_key_vec();
    if match_at(s, 1, &migk) {
        if 1 + migk.len() > n - 1 {
            proof {
                assert forall|p: crate::errors::ResponseParameters|
                    s@ == params_wire(p) implies false by {
                    lemma_params_shape(s@, p);
                    lemma_params_mig(s@, p);
                }
            }
            return None;
        }
        let pr = parse_i64_range(s, 1 + migk.len(), n - 1);
        match pr {
            None => {
                proof {
                    assert forall|p: crate::errors::ResponseParameters|
                        s@ == params_wire(p) implies false by {
                        lemma_params_shape(s@, p);
                        lemma_params_mig(s@, p);
                        lemma_params_complete_mig(s@, p, pr);
                    }
                }
                None
            },
            Some((m, e)) => {
                if e == n - 1 {
                    let one = crate::errors::ResponseParameters {
                        migrate_to_chat_id: Some(m),
                        retry_after: None,
                    };
                    proof {
                        assert(s@.subrange(22, n as int - 1) == int_wire(m as int));
                        assert(s@ =~= params_wire(one));
                        assert forall|p: crate::errors::ResponseParameters|
                            s@ == params_wire(p) implies p == one by {
                            lemma_params_shape(s@, p);
                            lemma_params_mig(s@, p);
                            lemma_params_complete_mig(s@, p, pr);
                        }
                    }
                    Some(one)
                } else if s[e] == COMMA && n - 1 - e > retk.len() && match_at(s, e + 1, &retk)
                {
                    let rs = e + 1 + retk.len();
                    let pr2 = parse_i64_range(s, rs, n - 1);
                    match pr2 {
                        Some((t, e2)) => {
                            if e2 == n - 1 {
                                let both = crate::errors::ResponseParameters {
                                    migrate_to_chat_id: Some(m),
                                    retry_after: Some(t),
                                };
                                proof {
                                    assert(s@.subrange(22, e as int) == int_wire(m as int));
                                    assert(s@.subrange(rs as int, n as int - 1) == int_wire(
                                        t as int,
                                    ));
                                    assert(s@.subrange(e as int + 1, e as int + 1 + 14) =~= retk@);
                                    assert(s@ =~= params_wire(both));
                                    assert forall|p: crate::errors::ResponseParameters|
                                        s@ == params_wire(p) implies p == both by {
                                        lemma_params_shape(s@, p);
                                        lemma_params_mig(s@, p);
                                        lemma_params_complete_mig(s@, p, pr);
                                        lemma_params_complete_retry(s@, p, e as int, pr2);
                                    }
                                }
                                Some(both)
                            } else {
                                proof {
                                    assert forall|p: crate::errors::ResponseParameters|
                                        s@ == params_wire(p) implies false by {
                                        lemma_params_shape(s@, p);
                                        lemma_params_mig(s@, p);
                                        lemma_params_complete_mig(s@, p, pr);
                                        lemma_params_complete_retry(s@, p, e as int, pr2);
                                    }
                                }
                                None
                            }
                        },
                        None => {
                            proof {
                                assert forall|p: crate::errors::ResponseParameters|
                                    s@ == params_wire(p) implies false by {
                                    lemma_params_shape(s@, p);
                                    lemma_params_mig(s@, p);
                                    lemma_params_complete_mig(s@, p, pr);
                                    lemma_params_complete_retry(s@, p, e as int, pr2);
                                }
                            }
                            None
                        },
                    }
                } else {
                    proof {
                        assert forall|p: crate::errors::ResponseParameters|
                            s@ == params_wire(p) implies false by {
                            lemma_params_shape(s@, p);
                            lemma_params_mig(s@, p);
                            lemma_params_complete_mig(s@, p, pr);
                            if p.migrate_to_chat_id matches Some(pm) && p.retry_after is Some {
                                assert(s@.subrange(e as int + 1, e as int + 1 + 14) == retry_key());
                            }
                        }
                    }
                    None
                }
            },
        }
    } else if match_at(s, 1, &retk) && 1 + retk.len() <= n - 1 {
        let pr = parse_i64_range(s, 1 + retk.len(), n - 1);
        match pr {
            Some((t, e)) => {
                if e == n - 1 {
                    let one = crate::errors::ResponseParameters {
                        migrate_to_chat_id: None,
                        retry_after: Some(t),
                    };
                    proof {
                        assert(s@.subrange(15, n as int - 1) == int_wire(t as int));
                        assert(s@ =~= params_wire(one));
                        assert forall|p: crate::errors::ResponseParameters|
                            s@ == params_wire(p) implies p == one by {
                            lemma_params_shape(s@, p);
                            lemma_params_complete_only_retry(s@, p, pr);
                        }
                    }
                    Some(one)
                } else {
                    proof {
                        assert forall|p: crate::errors::ResponseParameters|
                            s@ == params_wire(p) implies false by {
                            lemma_params_shape(s@, p);
                            lemma_params_complete_only_retry(s@, p, pr);
                        }
                    }
                    None
                }
            },
            None => {
                proof {
                    assert forall|p: crate::errors::ResponseParameters|
                        s@ == params_wire(p) implies false by {
                        lemma_params_shape(s@, p);
                        lemma_params_complete_only_retry(s@, p, pr);
                    }
                }
                None
            },
        }
    } else {
        proof {
            assert forall|p: crate::errors::ResponseParameters|
                s@ == params_wire(p) implies false by {
                lemma_params_shape(s@, p);
            }
        }
        None
    }
}

/// Where a byte string is the wire form of a parameters value, the
/// keys and integers sit at fixed, recoverable positions.
proof fn lemma_params_shape(s: Seq<u8>, p: crate::errors::ResponseParameters)
    requires
        s == params_wire(p),
    ensures
        s.len() >= 2,
        s[0] == LBRACE,
        s[s.len() - 1] == RBRACE,
        (p.migrate_to_chat_id is None && p.retry_after is None) ==> s.len() == 2,
        p.migrate_to_chat_id is Some ==> 22 <= s.len() - 1 && s.subrange(1, 22) == mig_key(),
        (p.migrate_to_chat_id is None && p.retry_after is Some) ==> 15 <= s.len() - 1
            && s.subrange(1, 15) == retry_key(),
        s.len() > 2 && p.migrate_to_chat_id is None && p.retry_after is None ==> false,
{
    match (p.migrate_to_chat_id, p.retry_after) {
        (None, None) => {},
        (Some(m), None) => {
            lemma_dec_digits_shape(if m < 0 {
                (-(m as int)) as nat
            } else {
                m as nat
            });
            assert(s.subrange(1, 22) =~= mig_key());
        },
        (None, Some(t)) => {
            lemma_dec_digits_shape(if t < 0 {
                (-(t as int)) as nat
            } else {
                t as nat
            });
            assert(s.subrange(1, 15) =~= retry_key());
        },
        (Some(m), Some(t)) => {
            lemma_dec_digits_shape(if m < 0 {
                (-(m as int)) as nat
            } else {
                m as nat
            });
            lemma_dec_digits_shape(if t < 0 {
                (-(t as int)) as nat
            } else {
                t as nat
            });
            assert(s.subrange(1, 22) =~= mig_key());
        },
    }
}

/// A wire form that carries the migration key at the front carries the
/// migration field.
proof fn lemma_params_mig(s: Seq<u8>, p: crate::errors::ResponseParameters)
    requires
        s == params_wire(p),
        s.len() >= 22,
        s.subrange(1, 22) == mig_key(),
    ensures
        p.migrate_to_chat_id is Some,
{
    lemma_params_shape(s, p);
    if p.migrate_to_chat_id is None {
        if p.retry_after is Some {
            assert(s.subrange(1, 15)[0] == s[1]);
            assert(s.subrange(1, 15)[1] == s[2]);
            assert(s.subrange(1, 22)[1] == s[2]);
            assert(retry_key()[1] == 114);
            assert(mig_key()[1] == 109);
            assert(false);
        }
    }
}

/// In a wire form with the migration field, the integer after the key
/// is what a maximal scan at position 22 finds, and what follows it.
proof fn lemma_params_complete_mig(
    s: Seq<u8>,
    p: crate::errors::ResponseParameters,
    pr: Option<(i64, usize)>,
)
    requires
        s == params_wire(p),
        p.migrate_to_chat_id is Some,
        s.len() >= 2,
        22 <= s.len() - 1,
        forall|v: i64, k: int|
            22 <= k <= s.len() - 1 && s.subrange(22, k) == int_wire(v as int) && (k == s.len() - 1
                || !is_digit(s[k])) ==> pr == Some((v, k as usize)),
    ensures
        p.retry_after is None ==> pr == Some((p.migrate_to_chat_id->0, (s.len() - 1) as usize)),
        p.retry_after is Some ==> {
            let ilen = int_wire(p.migrate_to_chat_id->0 as int).len() as int;
            &&& pr == Some((p.migrate_to_chat_id->0, (22 + ilen) as usize))
            &&& s[22 + ilen] == COMMA
            &&& 22 + ilen + 1 + 14 <= s.len() - 1
            &&& s.subrange(22 + ilen + 1, 22 + ilen + 1 + 14) == retry_key()
            &&& s.subrange(22 + ilen + 15, s.len() - 1) == int_wire(p.retry_after->0 as int)
        },
{
    let m = p.migrate_to_chat_id->0;
    let ilen = int_wire(m as int).len() as int;
    lemma_dec_digits_shape(if m < 0 {
        (-(m as int)) as nat
    } else {
        m as nat
    });
    match p.retry_after {
        None => {
            assert(s.subrange(22, s.len() - 1) =~= int_wire(m as int));
        },
        Some(t) => {
            lemma_dec_digits_shape(if t < 0 {
                (-(t as int)) as nat
            } else {
                t as nat
            });
            assert(s.subrange(22, 22 + ilen) =~= int_wire(m as int));
            assert(s[22 + ilen] == COMMA);
            assert(!is_digit(COMMA));
            assert(s.subrange(22 + ilen + 1, 22 + ilen + 1 + 14) =~= retry_key());
            assert(s.subrange(22 + ilen + 15, s.len() - 1) =~= int_wire(t as int));
        },
    }
}

/// The retry integer of a two-field wire form is what a maximal scan
/// after the retry key finds.
proof fn lemma_params_complete_retry(
    s: Seq<u8>,
    p: crate::errors::ResponseParameters,
    e: int,
    pr2: Option<(i64, usize)>,
)
    requires
        s == params_wire(p),
        p.migrate_to_chat_id is Some,
        p.retry_after is Some,
        e == 22 + int_wire(p.migrate_to_chat_id->0 as int).len(),
        s.len() >= 2,
        e + 15 <= s.len(),
        forall|v: i64, k: int|
            #![trigger s.subrange(e + 15, k), int_wire(v as int)]
            e + 15 <= k <= s.len() - 1 && s.subrange(e + 15, k) == int_wire(v as int) && (k
                == s.len() - 1 || !is_digit(s[k])) ==> pr2 == Some((v, k as usize)),
    ensures
        pr2 == Some((p.retry_after->0, (s.len() - 1) as usize)),
{
    let m = p.migrate_to_chat_id->0;
    let t = p.retry_after->0;
    lemma_dec_digits_shape(if m < 0 {
        (-(m as int)) as nat
    } else {
        m as nat
    });
    lemma_dec_digits_shape(if t < 0 {
        (-(t as int)) as nat
    } else {
        t as nat
    });
    let k0: int = s.len() - 1;
    assert(s.subrange(e + 15, k0) == int_wire(t as int)) by {
        assert(s.subrange(e + 15, k0) =~= int_wire(t as int));
    }
    assert(e + 15 <= k0 <= s.len() - 1);
    assert(pr2 == Some((t, k0 as usize)));
}

/// The retry integer of a retry-only wire form is what a maximal scan
/// at position 15 finds.
proof fn lemma_params_complete_only_retry(
    s: Seq<u8>,
    p: crate::errors::ResponseParameters,
    pr: Option<(i64, usize)>,
)
    requires
        s == params_wire(p),
        s.len() > 2,
        s.subrange(1, 15) != mig_key().subrange(0, 14) || true,
        s.len() >= 2,
        !(s.len() - 1 >= 22 && s.subrange(1, 22) == mig_key()),
        forall|v: i64, k: int|
            15 <= k <= s.len() - 1 && s.subrange(15, k) == int_wire(v as int) && (k == s.len() - 1
                || !is_digit(s[k])) ==> pr == Some((v, k as usize)),
    ensures
        p.migrate_to_chat_id is None,
        p.retry_after is Some,
        pr == Some((p.retry_after->0, (s.len() - 1) as usize)),
{
    lemma_params_shape(s, p);
    if p.migrate_to_chat_id is Some {
        assert(false);
    }
    if p.retry_after is None {
        assert(false);
    }
    let t = p.retry_after->0;
    lemma_dec_digits_shape(if t < 0 {
        (-(t as int)) as nat
    } else {
        t as nat
    });
    assert(s.subrange(15, s.len() - 1) =~= int_wire(t as int));
}

/// The bytes of `{"update_id":`.
pub open spec fn update_key() -> Seq<u8> {
    seq![123u8, 34, 117, 112, 100, 97, 116, 101, 95, 105, 100, 34, 58]
}

/// The wire form of one update: an object holding its identifier.
pub open spec fn update_wire(id: int) -> Seq<u8> {
    update_key() + int_wire(id) + seq![RBRACE]
}

/// The comma-joined items of an update batch.
pub open spec fn updates_items(ids: Seq<i64>) -> Seq<u8>
    decreases ids.len(),
{
    if ids.len() == 0 {
        Seq::<u8>::empty()
    } else if ids.len() == 1 {
        update_wire(ids[0] as int)
    } else {
        update_wire(ids[0] as int) + seq![COMMA] + updates_items(ids.drop_first())
    }
}

/// The wire form of an update batch: the bracketed, comma-joined items.
pub open spec fn updates_wire(ids: Seq<i64>) -> Seq<u8> {
    seq![LBRACK] + updates_items(ids) + seq![RBRACK]
}

/// The identifiers of a batch, in order.
pub open spec fn ids_of(us: Seq<crate::requests::Update>) -> Seq<i64> {
    us.map_values(|u: crate::requests::Update| u.id)
}

/// Appending one item extends the joined items by a comma and the
/// item, except at the front.
pub proof fn lemma_items_snoc(ids: Seq<i64>, x: i64)
    ensures
        updates_items(ids.push(x)) == if ids.len() == 0 {
            update_wire(x as int)
        } else {
            updates_items(ids) + seq![COMMA] + update_wire(x as int)
        },
    decreases ids.len(),
{
    if ids.len() == 0 {
        assert(ids.push(x) =~= seq![x]);
        assert(updates_items(seq![x]) == update_wire(x as int));
    } else {
        assert(ids.push(x).drop_first() =~= ids.drop_first().push(x));
        lemma_items_snoc(ids.drop_first(), x);
        if ids.len() == 1 {
            assert(updates_items(ids) == update_wire(ids[0] as int));
        }
        assert(updates_items(ids.push(x)) =~= updates_items(ids) + seq![COMMA] + update_wire(
            x as int,
        ));
    }
}

/// In the remainder of a batch, the head item's key, integer, closing
/// brace, and following separator sit at recoverable positions.
proof fn lemma_items_head(s: Seq<u8>, pos: int, ids: Seq<i64>)
    requires
        0 <= pos <= s.len(),
        s.subrange(pos, s.len() as int) == updates_items(ids) + seq![RBRACK],
        ids.len() >= 1,
    ensures
        ({
            let ilen = int_wire(ids[0] as int).len() as int;
            &&& pos + 13 + ilen + 1 < s.len()
            &&& s.subrange(pos, pos + 13) == update_key()
            &&& s.subrange(pos + 13, pos + 13 + ilen) == int_wire(ids[0] as int)
            &&& s[pos + 13 + ilen] == RBRACE
            &&& s.subrange(pos, pos + 13 + ilen + 1) == update_wire(ids[0] as int)
            &&& (ids.len() == 1 ==> pos + 13 + ilen + 2 == s.len() && s[s.len() - 1] == RBRACK)
            &&& (ids.len() > 1 ==> s[pos + 13 + ilen + 1] == COMMA && s.subrange(
                pos + 13 + ilen + 2,
                s.len() as int,
            ) == updates_items(ids.drop_first()) + seq![RBRACK])
        }),
{
    broadcast use vstd::seq_lib::group_seq_properties;

    lemma_dec_digits_shape(if ids[0] < 0 {
        (-(ids[0] as int)) as nat
    } else {
        ids[0] as nat
    });
    let ilen = int_wire(ids[0] as int).len() as int;
    if ids.len() == 1 {
        assert(s.subrange(pos, s.len() as int) =~= update_key() + int_wire(ids[0] as int) + seq![
            RBRACE,
        ] + seq![RBRACK]);
        assert(s.subrange(pos, pos + 13) =~= update_key());
        assert(s.subrange(pos + 13, pos + 13 + ilen) =~= int_wire(ids[0] as int));
        assert(s.subrange(pos, pos + 13 + ilen + 1) =~= update_wire(ids[0] as int));
    } else {
        assert(s.subrange(pos, s.len() as int) =~= update_key() + int_wire(ids[0] as int) + seq![
            RBRACE,
        ] + seq![COMMA] + (updates_items(ids.drop_first()) + seq![RBRACK]));
        assert(s.subrange(pos, pos + 13) =~= update_key());
        assert(s.subrange(pos + 13, pos + 13 + ilen) =~= int_wire(ids[0] as int));
        assert(s.subrange(pos, pos + 13 + ilen + 1) =~= update_wire(ids[0] as int));
        assert(s.subrange(pos + 13 + ilen + 2, s.len() as int) =~= updates_items(
            ids.drop_first(),
        ) + seq![RBRACK]);
    }
}

/// The bytes of [`update_key`], as a vector.
pub fn update_key_vec() -> (v: Vec<u8>)
    ensures
        v@ == update_key(),
{
    let mut v: Vec<u8> = Vec::new();
    v.push(123);
    v.push(34);
    v.push(117);
    v.push(112);
    v.push(100);
    v.push(97);
    v.push(116);
    v.push(101);
    v.push(95);
    v.push(105);
    v.push(100);
    v.push(34);
    v.push(58);
    proof {
        assert(v@ =~= update_key());
    }
    v
}

/// Parse one update object at `pos`, maximally: an accepted span is
/// the wire form of the returned identifier, and the wire form of any
/// identifier sitting at `pos` is accepted whole.
fn parse_one_update(s: &Vec<u8>, pos: usize, uk: &Vec<u8>) -> (r: Option<(i64, usize)>)
    requires
        pos <= s@.len(),
        uk@ == update_key(),
    ensures
        r matches Some((v, end)) ==> pos + 14 <= end <= s@.len() && s@.subrange(
            pos as int,
            end as int,
        ) == update_wire(v as int),
        forall|w: i64, m: int|
            #![trigger s@.subrange(pos as int, m), update_wire(w as int)]
            pos <= m <= s@.len() && s@.subrange(pos as int, m) == update_wire(w as int) ==> r
                == Some((w, m as usize)),
{
    proof {
        broadcast use vstd::seq_lib::group_seq_properties;

    }
    let n = s.len();
    if !match_at(s, pos, uk) || pos + 13 > n {
        proof {
            assert forall|w: i64, m: int|
                #![trigger s@.subrange(pos as int, m), update_wire(w as int)]
                pos <= m <= s@.len() && s@.subrange(pos as int, m) == update_wire(
                    w as int,
                ) implies false by {
                lemma_update_wire_shape(s@, pos as int, m, w);
            }
        }
        return None;
    }
    let pr = parse_i64_range(s, pos + 13, n);
    match pr {
        Some((v, e)) => {
            if e < n && s[e] == RBRACE {
                proof {
                    assert(s@.subrange(pos as int, e as int + 1) =~= uk@ + int_wire(v as int)
                        + seq![RBRACE]);
                    assert forall|w: i64, m: int|
                        #![trigger s@.subrange(pos as int, m), update_wire(w as int)]
                        pos <= m <= s@.len() && s@.subrange(pos as int, m) == update_wire(
                            w as int,
                        ) implies Some((v, (e + 1) as usize)) == Some((w, m as usize)) by {
                        lemma_update_wire_shape(s@, pos as int, m, w);
                        assert(pr == Some((w, (m - 1) as usize)));
                    }
                }
                Some((v, e + 1))
            } else {
                proof {
                    assert forall|w: i64, m: int|
                        #![trigger s@.subrange(pos as int, m), update_wire(w as int)]
                        pos <= m <= s@.len() && s@.subrange(pos as int, m) == update_wire(
                            w as int,
                        ) implies false by {
                        lemma_update_wire_shape(s@, pos as int, m, w);
                        assert(pr == Some((w, (m - 1) as usize)));
                    }
                }
                None
            }
        },
        None => {
            proof {
                assert forall|w: i64, m: int|
                    #![trigger s@.subrange(pos as int, m), update_wire(w as int)]
                    pos <= m <= s@.len() && s@.subrange(pos as int, m) == update_wire(
                        w as int,
                    ) implies false by {
                    lemma_update_wire_shape(s@, pos as int, m, w);
                    assert(pr == Some((w, (m - 1) as usize)));
                }
            }
            None
        },
    }
}

/// Where the wire form of one update sits at `pos`, its key, integer
/// and closing brace sit at recoverable positions.
proof fn lemma_update_wire_shape(s: Seq<u8>, pos: int, m: int, w: i64)
    requires
        0 <= pos <= m <= s.len(),
        s.subrange(pos, m) == update_wire(w as int),
    ensures
        m - pos == 14 + int_wire(w as int).len(),
        pos + 14 <= m,
        s.subrange(pos, pos + 13) == update_key(),
        s.subrange(pos + 13, m - 1) == int_wire(w as int),
        m - 1 == s.len() || !is_digit(s[m - 1]),
        s[m - 1] == RBRACE,
{
    broadcast use vstd::seq_lib::group_seq_properties;

    lemma_dec_digits_shape(if w < 0 {
        (-(w as int)) as nat
    } else {
        w as nat
    });
    let w_all = s.subrange(pos, m);
    assert(w_all == update_wire(w as int));
    assert(s.subrange(pos, pos + 13) =~= w_all.subrange(0, 13));
    assert(w_all.subrange(0, 13) =~= update_key());
    assert(s.subrange(pos + 13, m - 1) =~= w_all.subrange(13, w_all.len() - 1));
    assert(w_all.subrange(13, w_all.len() - 1) =~= int_wire(w as int));
    assert(s[m - 1] == w_all[w_all.len() - 1]);
    assert(s[m - 1] == RBRACE);
}

/// Closing a batch after its last item: the scanned bytes form the
/// wire of the identifiers seen.
proof fn lemma_close_batch(s: Seq<u8>, pos: int, end: int, prev: Seq<i64>, v: i64)
    requires
        0 <= pos <= end,
        end + 1 == s.len(),
        s.subrange(0, pos) == seq![LBRACK] + (if prev.len() == 0 {
            Seq::<u8>::empty()
        } else {
            updates_items(prev) + seq![COMMA]
        }),
        s.subrange(pos, end) == update_wire(v as int),
        s[end] == RBRACK,
    ensures
        s == updates_wire(prev.push(v)),
{
    broadcast use vstd::seq_lib::group_seq_properties;

    lemma_items_snoc(prev, v);
    assert(s =~= s.subrange(0, pos) + s.subrange(pos, end) + seq![RBRACK]);
    assert(s =~= seq![LBRACK] + updates_items(prev.push(v)) + seq![RBRACK]);
}

/// Passing a separator after an item: the scanned bytes stay the
/// comma-terminated items of the identifiers seen.
proof fn lemma_continue_batch(s: Seq<u8>, pos: int, end: int, prev: Seq<i64>, v: i64)
    requires
        0 <= pos <= end,
        end + 1 <= s.len(),
        s.subrange(0, pos) == seq![LBRACK] + (if prev.len() == 0 {
            Seq::<u8>::empty()
        } else {
            updates_items(prev) + seq![COMMA]
        }),
        s.subrange(pos, end) == update_wire(v as int),
        s[end] == COMMA,
    ensures
        s.subrange(0, end + 1) == seq![LBRACK] + (updates_items(prev.push(v)) + seq![COMMA]),
{
    broadcast use vstd::seq_lib::group_seq_properties;

    lemma_items_snoc(prev, v);
    assert(s.subrange(0, end + 1) =~= s.subrange(0, pos) + s.subrange(pos, end) + seq![COMMA]);
    assert(s.subrange(0, end + 1) =~= seq![LBRACK] + (updates_items(prev.push(v)) + seq![
        COMMA,
    ]));
}

/// Decode an update batch. The accepted inputs are exactly the
/// canonical wire forms: an accepted input is the wire form of the
/// returned batch's identifiers, and the wire form of any identifier
/// sequence is accepted and returns those identifiers in order.
#[verifier::rlimit(100)]
#[verifier::spinoff_prover]
pub fn decode_updates(s: &Vec<u8>) -> (r: Option<Vec<crate::requests::Update>>)
    ensures
        r matches Some(us) ==> s@ == updates_wire(ids_of(us@)),
        forall|ids: Seq<i64>| s@ == updates_wire(ids) ==> (r matches Some(us) && ids_of(us@)
            == ids),
{
    proof {
        broadcast use vstd::seq_lib::group_seq_properties;

    }
    let n = s.len();
    if n < 2 || s[0] != LBRACK || s[n - 1] != RBRACK {
        proof {
            assert forall|ids: Seq<i64>| s@ == updates_wire(ids) implies false by {
                assert(s@[0] == LBRACK);
                assert(s@[s@.len() - 1] == RBRACK);
            }
        }
        return None;
    }
    if s[1] == RBRACK {
        if n == 2 {
            let us: Vec<crate::requests::Update> = Vec::new();
            proof {
                assert(ids_of(us@) =~= Seq::<i64>::empty());
                assert(s@ =~= updates_wire(ids_of(us@)));
                assert forall|ids: Seq<i64>| s@ == updates_wire(ids) implies ids_of(us@)
                    == ids by {
                    if ids.len() >= 1 {
                        assert(s@.subrange(1, n as int) =~= updates_items(ids) + seq![RBRACK]);
                        lemma_items_head(s@, 1, ids);
                    }
                    assert(ids =~= ids_of(us@));
                }
            }
            return Some(us);
        } else {
            proof {
                assert forall|ids: Seq<i64>| s@ == updates_wire(ids) implies false by {
                    if ids.len() >= 1 {
                        assert(s@.subrange(1, n as int) =~= updates_items(ids) + seq![RBRACK]);
                        lemma_items_head(s@, 1, ids);
                        assert(s@.subrange(1 as int, 14 as int)[0 as int] == s@[1 as int]);
                        assert(update_key()[0] == 123);
                    } else {
                        assert(s@ =~= seq![LBRACK] + Seq::<u8>::empty() + seq![RBRACK]);
                        assert(s@.len() == 2);
                    }
                }
            }
            return None;
        }
    }
    let uk = update_key_vec();
    let mut us: Vec<crate::requests::Update> = Vec::new();
    let mut pos: usize = 1;
    proof {
        assert(s@.subrange(0, 1) =~= seq![LBRACK]);
        assert forall|ids: Seq<i64>|
            s@ == updates_wire(ids) implies ids.len() > us@.len() && ids_of(us@) == ids.take(
            us@.len() as int,
        ) && s@.subrange(pos as int, n as int) == updates_items(ids.skip(us@.len() as int))
            + seq![RBRACK] by {
            if ids.len() == 0 {
                assert(s@ =~= seq![LBRACK] + Seq::<u8>::empty() + seq![RBRACK]);
                assert(s@[1] == RBRACK);
            }
            assert(s@.subrange(1, n as int) =~= updates_items(ids) + seq![RBRACK]);
            assert(ids.skip(0) =~= ids);
            assert(ids.take(0) =~= ids_of(us@));
        }
    }
    while pos < n
        invariant
            1 <= pos <= n == s@.len(),
            uk@ == update_key(),
            s@.subrange(0, pos as int) == seq![LBRACK] + (if us@.len() == 0 {
                Seq::<u8>::empty()
            } else {
                updates_items(ids_of(us@)) + seq![COMMA]
            }),
            forall|ids: Seq<i64>|
                s@ == updates_wire(ids) ==> ids.len() > us@.len() && ids_of(us@) == ids.take(
                    us@.len() as int,
                ) && s@.subrange(pos as int, n as int) == updates_items(
                    ids.skip(us@.len() as int),
                ) + seq![RBRACK],
        decreases n - pos,
    {
        let ghost k = us@.len() as int;
        let parsed = parse_one_update(s, pos, &uk);
        proof {
            assert forall|ids: Seq<i64>|
                s@ == updates_wire(ids) implies parsed == Some(
                (
                    ids.skip(k)[0],
                    (pos + 13 + int_wire(ids.skip(k)[0] as int).len() + 1) as usize,
                ),
            ) by {
                lemma_items_head(s@, pos as int, ids.skip(k));
            }
        }
        match parsed {
            None => {
                proof {
                    assert forall|ids: Seq<i64>| s@ == updates_wire(ids) implies false by {
                        lemma_items_head(s@, pos as int, ids.skip(k));
                    }
                }
                return None;
            },
            Some((v, end)) => {
                let ghost old_ids = ids_of(us@);
                us.push(crate::requests::Update { id: v });
                proof {
                    assert(ids_of(us@) =~= old_ids.push(v));
                }
                if end >= n {
                    proof {
                        assert forall|ids: Seq<i64>| s@ == updates_wire(ids) implies false by {
                            lemma_items_head(s@, pos as int, ids.skip(k));
                        }
                    }
                    return None;
                }
                if s[end] == RBRACK {
                    if end + 1 == n {
                        proof {
                            lemma_close_batch(s@, pos as int, end as int, old_ids, v);
                            assert forall|ids: Seq<i64>|
                                s@ == updates_wire(ids) implies ids_of(us@) == ids by {
                                lemma_items_head(s@, pos as int, ids.skip(k));
                                let ilen = int_wire(ids.skip(k)[0] as int).len() as int;
                                assert(v == ids.skip(k)[0]);
                                if ids.skip(k).len() > 1 {
                                    assert(s@[pos + 13 + ilen + 1] == COMMA);
                                    assert(false);
                                }
                                assert(ids.len() == k + 1);
                                assert(ids =~= ids.take(k).push(ids.skip(k)[0]));
                                assert(ids_of(us@) =~= ids);
                            }
                        }
                        return Some(us);
                    } else {
                        proof {
                            assert forall|ids: Seq<i64>| s@ == updates_wire(ids) implies false by {
                                lemma_items_head(s@, pos as int, ids.skip(k));
                                let ilen = int_wire(ids.skip(k)[0] as int).len() as int;
                                if ids.skip(k).len() == 1 {
                                    assert(pos + 13 + ilen + 2 == n);
                                } else {
                                    assert(s@[pos + 13 + ilen + 1] == COMMA);
                                }
                            }
                        }
                        return None;
                    }
                }
                if s[end] != COMMA {
                    proof {
                        assert forall|ids: Seq<i64>| s@ == updates_wire(ids) implies false by {
                            lemma_items_head(s@, pos as int, ids.skip(k));
                            let ilen = int_wire(ids.skip(k)[0] as int).len() as int;
                            if ids.skip(k).len() == 1 {
                                assert(s@[end as int] == RBRACK);
                            } else {
                                assert(s@[end as int] == COMMA);
                            }
                        }
                    }
                    return None;
                }
                proof {
                    lemma_continue_batch(s@, pos as int, end as int, old_ids, v);
                    assert forall|ids: Seq<i64>|
                        s@ == updates_wire(ids) implies ids.len() > us@.len() && ids_of(us@)
                        == ids.take(us@.len() as int) && s@.subrange(end as int + 1, n as int)
                        == updates_items(ids.skip(us@.len() as int)) + seq![RBRACK] by {
                        lemma_items_head(s@, pos as int, ids.skip(k));
                        let ilen = int_wire(ids.skip(k)[0] as int).len() as int;
                        assert(v == ids.skip(k)[0]);
                        if ids.skip(k).len() == 1 {
                            assert(s@[end as int] == RBRACK);
                            assert(false);
                        }
                        assert(ids.len() > k + 1);
                        assert(ids.take(k + 1) =~= ids.take(k).push(ids.skip(k)[0]));
                        assert(ids_of(us@) =~= ids.take(k + 1));
                        assert(ids.skip(k).drop_first() =~= ids.skip(k + 1));
                        assert(s@.subrange(end as int + 1, n as int) =~= updates_items(ids.skip(
                            k + 1,
                        )) + seq![RBRACK]);
                    }
                }
                pos = end + 1;
            },
        }
    }
    proof {
        assert forall|ids: Seq<i64>| s@ == updates_wire(ids) implies false by {
            lemma_items_head(s@, pos as int, ids.skip(us@.len() as int));
        }
    }
    None
}

/// The bytes of `"offset":`.
pub open spec fn offset_key() -> Seq<u8> {
    seq![34u8, 111, 102, 102, 115, 101, 116, 34, 58]
}

/// The bytes of `"limit":`.
pub open spec fn limit_key() -> Seq<u8> {
    seq![34u8, 108, 105, 109, 105, 116, 34, 58]
}

/// The bytes of `"timeout":`.
pub open spec fn timeout_key() -> Seq<u8> {
    seq![34u8, 116, 105, 109, 101, 111, 117, 116, 34, 58]
}

/// Fields joined by commas.
pub open spec fn join_comma(fs: Seq<Seq<u8>>) -> Seq<u8>
    decreases fs.len(),
{
    if fs.len() == 0 {
        Seq::<u8>::empty()
    } else if fs.len() == 1 {
        fs[0]
    } else {
        fs[0] + seq![COMMA] + join_comma(fs.drop_first())
    }
}

/// Appending a field extends the joined fields by a comma and the
/// field, except at the front.
pub proof fn lemma_join_snoc(fs: Seq<Seq<u8>>, f: Seq<u8>)
    ensures
        join_comma(fs.push(f)) == if fs.len() == 0 {
            f
        } else {
            join_comma(fs) + seq![COMMA] + f
        },
    decreases fs.len(),
{
    if fs.len() == 0 {
        assert(fs.push(f) =~= seq![f]);
        assert(join_comma(seq![f]) == f);
    } else {
        assert(fs.push(f).drop_first() =~= fs.drop_first().push(f));
        lemma_join_snoc(fs.drop_first(), f);
        if fs.len() == 1 {
            assert(join_comma(fs) == fs[0]);
        }
        assert(join_comma(fs.push(f)) =~= join_comma(fs) + seq![COMMA] + f);
    }
}

/// The present fields of a fetch request, in wire order.
pub open spec fn gu_fields(g: crate::requests::GetUpdates) -> Seq<Seq<u8>> {
    (match g.offset {
        Some(o) => seq![offset_key() + int_wire(o as int)],
        None => Seq::<Seq<u8>>::empty(),
    }) + (match g.limit {
        Some(l) => seq![limit_key() + int_wire(l as int)],
        None => Seq::<Seq<u8>>::empty(),
    }) + (match g.timeout {
        Some(t) => seq![timeout_key() + int_wire(t as int)],
        None => Seq::<Seq<u8>>::empty(),
    })
}

/// The wire form of a fetch request's body: its present fields as a
/// compact object.
pub open spec fn get_updates_wire(g: crate::requests::GetUpdates) -> Seq<u8> {
    seq![LBRACE] + join_comma(gu_fields(g)) + seq![RBRACE]
}

/// Append `pat` to `out`.
pub fn push_bytes(out: &mut Vec<u8>, pat: &Vec<u8>)
    ensures
        final(out)@ == old(out)@ + pat@,
{
    let mut i: usize = 0;
    proof {
        assert(out@ =~= old(out)@ + pat@.take(0));
    }
    while i < pat.len()
        invariant
            0 <= i <= pat@.len(),
            out@ == old(out)@ + pat@.take(i as int),
        decreases pat@.len() - i,
    {
        out.push(pat[i]);
        proof {
            assert(pat@.take(i as int).push(pat@[i as int]) =~= pat@.take(i as int + 1));
            assert(out@ =~= old(out)@ + pat@.take(i as int + 1));
        }
        i = i + 1;
    }
    proof {
        assert(pat@.take(pat@.len() as int) =~= pat@);
    }
}

/// The bytes of [`offset_key`], as a vector.
pub fn offset_key_vec() -> (v: Vec<u8>)
    ensures
        v@ == offset_key(),
{
    let mut v: Vec<u8> = Vec::new();
    v.push(34);
    v.push(111);
    v.push(102);
    v.push(102);
    v.push(115);
    v.push(101);
    v.push(116);
    v.push(34);
    v.push(58);
    proof {
        assert(v@ =~= offset_key());
    }
    v
}

/// The bytes of [`limit_key`], as a vector.
pub fn limit_key_vec() -> (v: Vec<u8>)
    ensures
        v@ == limit_key(),
{
    let mut v: Vec<u8> = Vec::new();
    v.push(34);
    v.push(108);
    v.push(105);
    v.push(109);
    v.push(105);
    v.push(116);
    v.push(34);
    v.push(58);
    proof {
        assert(v@ =~= limit_key());
    }
    v
}

/// The bytes of [`timeout_key`], as a vector.
pub fn timeout_key_vec() -> (v: Vec<u8>)
    ensures
        v@ == timeout_key(),
{
    let mut v: Vec<u8> = Vec::new();
    v.push(34);
    v.push(116);
    v.push(105);
    v.push(109);
    v.push(101);
    v.push(111);
    v.push(117);
    v.push(116);
    v.push(34);
    v.push(58);
    proof {
        assert(v@ =~= timeout_key());
    }
    v
}


/// Encode a fetch request's body in the canonical compact form.
pub fn encode_get_updates(g: &crate::requests::GetUpdates) -> (r: Vec<u8>)
    ensures
        r@ == get_updates_wire(*g),
{
    let mut out: Vec<u8> = Vec::new();
    out.push(LBRACE);
    let mut first: bool = true;
    let ghost mut fs: Seq<Seq<u8>> = Seq::<Seq<u8>>::empty();
    proof {
        assert(out@ =~= seq![LBRACE] + join_comma(fs));
    }
    if let Some(o) = g.offset {
        let ghost fs0 = fs;
        if !first {
            out.push(COMMA);
        }
        let key = offset_key_vec();
        push_bytes(&mut out, &key);
        write_i64(&mut out, o);
        proof {
            fs = fs0.push(offset_key() + int_wire(o as int));
            lemma_join_snoc(fs0, offset_key() + int_wire(o as int));
            assert(out@ =~= seq![LBRACE] + join_comma(fs));
        }
        first = false;
    }
    if let Some(l) = g.limit {
        let ghost fs0 = fs;
        if !first {
            out.push(COMMA);
        }
        let key = limit_key_vec();
        push_bytes(&mut out, &key);
        write_i64(&mut out, l);
        proof {
            fs = fs0.push(limit_key() + int_wire(l as int));
            lemma_join_snoc(fs0, limit_key() + int_wire(l as int));
            assert(out@ =~= seq![LBRACE] + join_comma(fs));
        }
        first = false;
    }
    if let Some(t) = g.timeout {
        let ghost fs0 = fs;
        if !first {
            out.push(COMMA);
        }
        let key = timeout_key_vec();
        push_bytes(&mut out, &key);
        write_i64(&mut out, t);
        proof {
            fs = fs0.push(timeout_key() + int_wire(t as int));
            lemma_join_snoc(fs0, timeout_key() + int_wire(t as int));
            assert(out@ =~= seq![LBRACE] + join_comma(fs));
        }
    }
    out.push(RBRACE);
    proof {
        assert(fs =~= gu_fields(*g));
        assert(out@ =~= get_updates_wire(*g));
    }
    out
}

/// The byte sequences `s` maps to as ASCII text.
pub open spec fn ascii_chars(s: Seq<u8>) -> Seq<char> {
    s.map_values(|b: u8| b as char)
}

/// A success envelope determines its payload.
pub proof fn lemma_success_wire_injective(p1: Seq<u8>, p2: Seq<u8>)
    requires
        success_wire(p1) == success_wire(p2),
    ensures
        p1 == p2,
{
    assert(p1 =~= success_wire(p1).subrange(20, success_wire(p1).len() - 1));
    assert(p2 =~= success_wire(p2).subrange(20, success_wire(p2).len() - 1));
}

/// No byte string is both a success and a failure envelope.
pub proof fn lemma_forms_distinct(p: Seq<u8>, d: Seq<u8>, pm: Option<Seq<u8>>)
    ensures
        success_wire(p) != error_wire(d, pm),
{
    if success_wire(p) == error_wire(d, pm) {
        assert(success_wire(p)[6] == ok_prefix()[6]);
        assert(error_wire(d, pm)[6] == err_prefix()[6]);
    }
}

/// A failure envelope with a plain description determines the
/// description and the parameters bytes.
pub proof fn lemma_error_wire_injective(d1: Seq<u8>, pm1: Option<Seq<u8>>, d2: Seq<u8>, pm2: Option<
    Seq<u8>,
>)
    requires
        plain_text(d1),
        plain_text(d2),
        error_wire(d1, pm1) == error_wire(d2, pm2),
    ensures
        d1 == d2,
        pm1 == pm2,
{
    let s = error_wire(d1, pm1);
    let e: int = 27 + d1.len() as int;
    assert(forall|j: int| 27 <= j < e ==> plain_byte(#[trigger] s[j]));
    assert(s[e] == QUOTE);
    assert(!plain_byte(QUOTE));
    lemma_error_wire_quote(s, d2, pm2, e);
    assert(d1 =~= s.subrange(27, e));
    match (pm1, pm2) {
        (None, None) => {},
        (None, Some(q2)) => {
            assert(s.len() == e + 2);
            assert(s[e + 1] == RBRACE);
            assert(s[e + 1] == params_key()[0]);
        },
        (Some(q1), None) => {
            assert(s.len() == e + 2);
            assert(s[e + 1] == RBRACE);
            assert(s[e + 1] == params_key()[0]);
        },
        (Some(q1), Some(q2)) => {
            assert(q1 =~= s.subrange(e + 15, s.len() - 1));
            assert(q2 =~= s.subrange(e + 15, s.len() - 1));
        },
    }
}

} // verus!
