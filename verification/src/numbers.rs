//! Canonical decimal text for 32-bit integers: the spec-level form, an
//! emitter, and a strict parser that accepts exactly the canonical form.

use vstd::prelude::*;
use vstd::string::*;

verus! {

/// The digit character for a value below ten.
pub open spec fn digit_char(d: int) -> char {
    if d == 0 {
        '0'
    } else if d == 1 {
        '1'
    } else if d == 2 {
        '2'
    } else if d == 3 {
        '3'
    } else if d == 4 {
        '4'
    } else if d == 5 {
        '5'
    } else if d == 6 {
        '6'
    } else if d == 7 {
        '7'
    } else if d == 8 {
        '8'
    } else {
        '9'
    }
}

/// Whether `c` is a decimal digit.
pub open spec fn is_digit(c: char) -> bool {
    '0' <= c && c <= '9'
}

/// The value of a digit character.
pub open spec fn digit_val(c: char) -> int {
    c as int - '0' as int
}

/// Decimal digits of a non-negative number, most significant first, no
/// leading zeros.
pub open spec fn dec_digits(n: nat) -> Seq<char>
    decreases n,
{
    if n < 10 {
        seq![digit_char(n as int)]
    } else {
        dec_digits(n / 10) + seq![digit_char((n % 10) as int)]
    }
}

/// The magnitude whose digits appear in the canonical text of `n`.
pub open spec fn dec_mag(n: int) -> nat {
    if n < 0 {
        (-n) as nat
    } else {
        n as nat
    }
}

/// Canonical decimal text of an integer: a minus sign for negatives, no
/// leading zeros, no plus sign.
pub open spec fn dec_int(n: int) -> Seq<char> {
    if n < 0 {
        seq!['-'] + dec_digits(dec_mag(n))
    } else {
        dec_digits(dec_mag(n))
    }
}

/// The number a digit string denotes, most significant digit first.
pub open spec fn val_of(s: Seq<char>) -> int
    decreases s.len(),
{
    if s.len() == 0 {
        0
    } else {
        val_of(s.drop_last()) * 10 + digit_val(s.last())
    }
}

/// A digit string in canonical shape: non-empty, digits only, and no
/// leading zero unless it is exactly "0".
pub open spec fn canonical_digits(s: Seq<char>) -> bool {
    &&& s.len() >= 1
    &&& forall|i: int| 0 <= i < s.len() ==> is_digit(#[trigger] s[i])
    &&& s.len() > 1 ==> s[0] != '0'
}

/// Ten to the `k`.
pub open spec fn pow10(k: nat) -> int
    decreases k,
{
    if k == 0 {
        1
    } else {
        10 * pow10((k - 1) as nat)
    }
}

/// Powers of ten are positive.
pub proof fn lemma_pow10_pos(k: nat)
    ensures
        pow10(k) >= 1,
    decreases k,
{
    if k > 0 {
        lemma_pow10_pos((k - 1) as nat);
    }
}

/// Ten to the power is monotone in the exponent.
pub proof fn lemma_pow10_mono(a: nat, b: nat)
    requires
        a <= b,
    ensures
        1 <= pow10(a) <= pow10(b),
    decreases b,
{
    lemma_pow10_pos(a);
    if a < b {
        lemma_pow10_mono(a, (b - 1) as nat);
    }
}

/// The two fixed powers of ten the parser bounds against.
pub proof fn lemma_pow10_vals()
    ensures
        pow10(9) == 1000000000,
        pow10(10) == 10000000000,
{
    reveal_with_fuel(pow10, 12);
}

/// Shape facts about the canonical digits of a number.
pub proof fn lemma_dec_digits_shape(n: nat)
    ensures
        canonical_digits(dec_digits(n)),
        n < 10 <==> dec_digits(n).len() == 1,
        n < pow10(dec_digits(n).len()),
        pow10((dec_digits(n).len() - 1) as nat) <= n || n == 0,
    decreases n,
{
    if n < 10 {
        assert(pow10(0) == 1);
        assert(pow10(1) == 10);
    } else {
        lemma_dec_digits_shape(n / 10);
        let p = dec_digits(n / 10);
        let s = dec_digits(n);
        assert(s == p + seq![digit_char((n % 10) as int)]);
        assert(s[0] == p[0]);
        assert(forall|i: int| 0 <= i < p.len() ==> s[i] == p[i]);
        assert(is_digit(s[s.len() - 1]));
        assert(n / 10 >= 1);
        assert(p[0] != '0') by {
            if p.len() == 1 {
                assert(p[0] == digit_char((n / 10) as int));
            }
        }
        assert(n < pow10(s.len())) by {
            assert(pow10(s.len()) == 10 * pow10(p.len()));
            assert(n / 10 + 1 <= pow10(p.len()));
            assert(n < 10 * (n / 10) + 10);
            assert(10 * (n / 10) + 10 <= 10 * pow10(p.len()));
        }
        assert(pow10((s.len() - 1) as nat) <= n) by {
            assert(pow10((s.len() - 1) as nat) == 10 * pow10((p.len() - 1) as nat));
            assert(pow10((p.len() - 1) as nat) <= n / 10);
            assert(10 * (n / 10) <= n);
            assert(10 * pow10((p.len() - 1) as nat) <= 10 * (n / 10));
        }
    }
}

/// The value of the canonical digits of `n` is `n`.
pub proof fn lemma_val_of_dec_digits(n: nat)
    ensures
        val_of(dec_digits(n)) == n,
    decreases n,
{
    if n < 10 {
        let s = dec_digits(n);
        assert(s.drop_last() =~= Seq::<char>::empty());
        assert(val_of(s.drop_last()) == 0);
        assert(val_of(s) == digit_val(digit_char(n as int)));
    } else {
        lemma_val_of_dec_digits(n / 10);
        let s = dec_digits(n);
        assert(s.drop_last() =~= dec_digits(n / 10));
        assert(s.last() == digit_char((n % 10) as int));
    }
}

/// Digit strings denote values bounded by ten to their length.
pub proof fn lemma_val_of_bound(s: Seq<char>)
    requires
        forall|i: int| 0 <= i < s.len() ==> is_digit(#[trigger] s[i]),
    ensures
        0 <= val_of(s) < pow10(s.len()),
    decreases s.len(),
{
    if s.len() > 0 {
        lemma_val_of_bound(s.drop_last());
        assert(is_digit(s.last()));
        assert(pow10(s.len()) == 10 * pow10((s.len() - 1) as nat));
    } else {
        assert(pow10(0) == 1);
    }
}

/// A canonical digit string is the canonical digits of its own value:
/// canonical decimal text is unique.
pub proof fn lemma_canonical_digits_unique(s: Seq<char>)
    requires
        canonical_digits(s),
    ensures
        val_of(s) >= 0,
        dec_digits(val_of(s) as nat) == s,
        s.len() > 1 ==> val_of(s) >= 10,
    decreases s.len(),
{
    lemma_val_of_bound(s);
    if s.len() == 1 {
        assert(is_digit(s[0]));
        assert(s.drop_last() =~= Seq::<char>::empty());
        assert(val_of(s.drop_last()) == 0);
        assert(val_of(s) == digit_val(s[0]));
        assert(dec_digits(val_of(s) as nat) =~= s);
    } else {
        let p = s.drop_last();
        assert(forall|i: int| 0 <= i < p.len() ==> is_digit(#[trigger] p[i]));
        assert(canonical_digits(p));
        lemma_canonical_digits_unique(p);
        let vp = val_of(p);
        let d = digit_val(s.last());
        let v = val_of(s);
        assert(v == vp * 10 + d);
        assert(is_digit(s.last()));
        assert(vp >= 1) by {
            if p.len() == 1 {
                assert(p[0] == s[0]);
                assert(p[0] != '0');
                assert(p.drop_last() =~= Seq::<char>::empty());
                assert(val_of(p.drop_last()) == 0);
                assert(val_of(p) == digit_val(p[0]));
            }
        }
        assert(v >= 10);
        assert(v / 10 == vp && v % 10 == d) by (nonlinear_arith)
            requires
                v == vp * 10 + d,
                0 <= d < 10,
                vp >= 0,
        ;
        assert(dec_digits(v as nat) == dec_digits((v / 10) as nat) + seq![
            digit_char((v % 10) as int),
        ]);
        assert(dec_digits(v as nat) =~= s);
    }
}

/// Shape facts about the canonical text of an integer in `i32` range.
pub proof fn lemma_dec_stats(n: int)
    requires
        -2147483648 <= n <= 2147483647,
    ensures
        dec_int(n).len() >= 1,
        n < 0 <==> dec_int(n)[0] == '-',
        (if n < 0 {
            dec_int(n).subrange(1, dec_int(n).len() as int)
        } else {
            dec_int(n)
        }) =~= dec_digits(dec_mag(n)),
        canonical_digits(dec_digits(dec_mag(n))),
        dec_digits(dec_mag(n)).len() <= 10,
{
    lemma_dec_digits_shape(dec_mag(n));
    let s = dec_int(n);
    if n < 0 {
        assert(s.subrange(1, s.len() as int) =~= dec_digits(dec_mag(n)));
    } else {
        assert(is_digit(s[0]));
        assert(s[0] != '-');
    }
    let digits = dec_digits(dec_mag(n));
    if digits.len() > 10 {
        lemma_pow10_vals();
        lemma_pow10_mono(10, (digits.len() - 1) as nat);
        assert(pow10((digits.len() - 1) as nat) <= dec_mag(n) || dec_mag(n) == 0);
        assert(false);
    }
}

fn digit_str(d: u8) -> (r: &'static str)
    requires
        d < 10,
    ensures
        r@ =~= seq![digit_char(d as int)],
{
    proof {
        reveal_strlit("0");
        reveal_strlit("1");
        reveal_strlit("2");
        reveal_strlit("3");
        reveal_strlit("4");
        reveal_strlit("5");
        reveal_strlit("6");
        reveal_strlit("7");
        reveal_strlit("8");
        reveal_strlit("9");
    }
    match d {
        0 => "0",
        1 => "1",
        2 => "2",
        3 => "3",
        4 => "4",
        5 => "5",
        6 => "6",
        7 => "7",
        8 => "8",
        _ => "9",
    }
}

/// Appends the canonical digits of `m` to `s`.
pub fn push_dec_u32(s: &mut String, m: u32)
    ensures
        final(s)@ == old(s)@ + dec_digits(m as nat),
    decreases m,
{
    if m >= 10 {
        push_dec_u32(s, m / 10);
        s.append(digit_str((m % 10) as u8));
        proof {
            assert(s@ =~= old(s)@ + dec_digits(m as nat));
        }
    } else {
        s.append(digit_str(m as u8));
        proof {
            assert(s@ =~= old(s)@ + dec_digits(m as nat));
        }
    }
}

/// Appends the canonical decimal text of `n` to `s`.
pub fn push_dec_i32(s: &mut String, n: i32)
    ensures
        final(s)@ == old(s)@ + dec_int(n as int),
{
    if n < 0 {
        s.append("-");
        proof {
            reveal_strlit("-");
            assert(s@ =~= old(s)@ + seq!['-']);
        }
        let m: u32 = (-(n as i64)) as u32;
        proof {
            assert(m as int == dec_mag(n as int));
        }
        push_dec_u32(s, m);
        proof {
            assert(s@ =~= old(s)@ + dec_int(n as int));
        }
    } else {
        push_dec_u32(s, n as u32);
    }
}

fn digit_value(c: char) -> (r: u8)
    requires
        is_digit(c),
    ensures
        r == digit_val(c),
        r < 10,
{
    (c as u32 - 48) as u8
}

/// Whether `c` is a decimal digit.
pub fn is_digit_char(c: char) -> (r: bool)
    ensures
        r == is_digit(c),
{
    '0' <= c && c <= '9'
}

/// Parses the canonical decimal text of an `i32`, and nothing else: no
/// leading zeros, no plus sign, no surrounding space.
#[verifier::loop_isolation(false)]
pub fn parse_i32(s: &str) -> (r: Option<i32>)
    ensures
        (r matches Some(n) ==> s@ == dec_int(n as int)),
        forall|n: i32| s@ == dec_int(n as int) ==> r == Some(n),
{
    proof {
        reveal_strlit("-");
        lemma_pow10_vals();
    }
    let ghost sv = s@;
    let n = s.unicode_len();
    if n == 0 {
        proof {
            assert forall|m: i32| sv != dec_int(m as int) by {
                if sv == dec_int(m as int) {
                    lemma_dec_stats(m as int);
                }
            }
        }
        return None;
    }
    let neg = s.get_char(0) == '-';
    let start: usize = if neg {
        1
    } else {
        0
    };
    if start == n {
        proof {
            assert forall|m: i32| sv != dec_int(m as int) by {
                if sv == dec_int(m as int) {
                    lemma_dec_stats(m as int);
                    assert(neg == (m < 0));
                    assert(sv.subrange(1, sv.len() as int).len() >= 1);
                }
            }
        }
        return None;
    }
    if n - start > 10 {
        proof {
            assert forall|m: i32| sv != dec_int(m as int) by {
                if sv == dec_int(m as int) {
                    lemma_dec_stats(m as int);
                    assert(neg == (m < 0));
                    let dm = if m < 0 {
                        sv.subrange(1, sv.len() as int)
                    } else {
                        sv
                    };
                    assert(dm.len() == n - start);
                    assert(dm.len() <= 10);
                }
            }
        }
        return None;
    }
    if s.get_char(start) == '0' && n - start > 1 {
        proof {
            assert forall|m: i32| sv != dec_int(m as int) by {
                if sv == dec_int(m as int) {
                    lemma_dec_stats(m as int);
                    assert(neg == (m < 0));
                    let dm = if m < 0 {
                        sv.subrange(1, sv.len() as int)
                    } else {
                        sv
                    };
                    assert(dm[0] == sv[start as int]);
                    assert(dm.len() > 1);
                    assert(dm[0] != '0');
                }
            }
        }
        return None;
    }
    let ghost digits = sv.subrange(start as int, n as int);
    let mut i: usize = start;
    let mut acc: u64 = 0;
    while i < n
        invariant
            start <= i <= n,
            forall|j: int| start <= j < i ==> is_digit(#[trigger] sv[j]),
            acc == val_of(sv.subrange(start as int, i as int)),
            acc < 10000000000,
        decreases n - i,
    {
        let c = s.get_char(i);
        if !is_digit_char(c) {
            proof {
                assert forall|m: i32| sv != dec_int(m as int) by {
                    if sv == dec_int(m as int) {
                        lemma_dec_stats(m as int);
                        assert(neg == (m < 0));
                        let dm = if m < 0 {
                            sv.subrange(1, sv.len() as int)
                        } else {
                            sv
                        };
                        assert(is_digit(dm[i - start]));
                        assert(dm[i - start] == sv[i as int]);
                    }
                }
            }
            return None;
        }
        let d = digit_value(c);
        proof {
            let pre = sv.subrange(start as int, i as int);
            let cur = sv.subrange(start as int, i as int + 1);
            assert(cur.drop_last() =~= pre);
            assert(cur.last() == sv[i as int]);
            assert(forall|j: int| 0 <= j < pre.len() ==> is_digit(#[trigger] pre[j]));
            lemma_val_of_bound(pre);
            lemma_pow10_mono(pre.len(), 9);
            assert(val_of(pre) < pow10(9));
        }
        acc = acc * 10 + (d as u64);
        i = i + 1;
    }
    proof {
        assert(canonical_digits(digits));
        lemma_canonical_digits_unique(digits);
        assert(acc == val_of(digits));
    }
    if neg {
        if acc == 0 || acc > 2147483648 {
            proof {
                assert forall|m: i32| sv != dec_int(m as int) by {
                    if sv == dec_int(m as int) {
                        lemma_dec_stats(m as int);
                        assert(neg == (m < 0));
                        lemma_val_of_dec_digits(dec_mag(m as int));
                        assert(digits =~= dec_digits(dec_mag(m as int)));
                        assert(acc == dec_mag(m as int));
                        assert(1 <= dec_mag(m as int) <= 2147483648);
                    }
                }
            }
            return None;
        }
        let v: i32 = (-(acc as i64)) as i32;
        proof {
            assert(v as int == -(acc as int));
            assert(dec_mag(v as int) == acc);
            assert(sv =~= dec_int(v as int));
            assert forall|m: i32| sv == dec_int(m as int) implies Some(v) == Some(m) by {
                lemma_dec_stats(m as int);
                assert(m < 0);
                lemma_val_of_dec_digits(dec_mag(m as int));
                assert(digits =~= dec_digits(dec_mag(m as int)));
                assert(acc == dec_mag(m as int));
            }
        }
        Some(v)
    } else {
        if acc > 2147483647 {
            proof {
                assert forall|m: i32| sv != dec_int(m as int) by {
                    if sv == dec_int(m as int) {
                        lemma_dec_stats(m as int);
                        assert(neg == (m < 0));
                        lemma_val_of_dec_digits(dec_mag(m as int));
                        assert(digits =~= dec_digits(dec_mag(m as int)));
                        assert(acc == dec_mag(m as int));
                        assert(dec_mag(m as int) <= 2147483647);
                    }
                }
            }
            return None;
        }
        let v: i32 = acc as i32;
        proof {
            assert(dec_mag(v as int) == acc);
            assert(sv =~= dec_int(v as int));
            assert forall|m: i32| sv == dec_int(m as int) implies Some(v) == Some(m) by {
                lemma_dec_stats(m as int);
                assert(m >= 0);
                lemma_val_of_dec_digits(dec_mag(m as int));
                assert(digits =~= dec_digits(dec_mag(m as int)));
                assert(acc == dec_mag(m as int));
            }
        }
        Some(v)
    }
}

/// The shape of signed decimal text as the standard parser accepts it: an
/// optional sign, then at least one digit; leading zeros allowed.
pub open spec fn lenient_shape(s: Seq<char>) -> bool {
    let start: int = if s.len() > 0 && (s[0] == '+' || s[0] == '-') {
        1
    } else {
        0
    };
    s.len() > start && forall|i: int| start <= i < s.len() ==> is_digit(#[trigger] s[i])
}

/// The value such text denotes.
pub open spec fn lenient_val(s: Seq<char>) -> int {
    if s.len() > 0 && s[0] == '-' {
        -val_of(s.subrange(1, s.len() as int))
    } else if s.len() > 0 && s[0] == '+' {
        val_of(s.subrange(1, s.len() as int))
    } else {
        val_of(s)
    }
}

/// Parses signed decimal text the way the standard library does: an
/// optional `+` or `-`, then digits, leading zeros allowed; the value
/// must fit an `i32`.
#[verifier::loop_isolation(false)]
pub fn parse_i32_lenient(s: &str) -> (r: Option<i32>)
    ensures
        (r matches Some(n) ==> lenient_shape(s@) && n == lenient_val(s@)),
        (lenient_shape(s@) && -2147483648 <= lenient_val(s@) <= 2147483647 ==> (r matches Some(n)
            && n == lenient_val(s@))),
{
    let ghost sv = s@;
    let n = s.unicode_len();
    if n == 0 {
        return None;
    }
    let c0 = s.get_char(0);
    let neg = c0 == '-';
    let start: usize = if neg || c0 == '+' {
        1
    } else {
        0
    };
    if start == n {
        return None;
    }
    let ghost digits = sv.subrange(start as int, n as int);
    let mut i: usize = start;
    let mut acc: u64 = 0;
    let mut over = false;
    proof {
        assert(sv.subrange(start as int, start as int) =~= Seq::<char>::empty());
        assert(val_of(Seq::<char>::empty()) == 0);
    }
    while i < n
        invariant
            start <= i <= n,
            forall|j: int| start <= j < i ==> is_digit(#[trigger] sv[j]),
            !over ==> acc == val_of(sv.subrange(start as int, i as int)) && acc <= 2147483648,
            over ==> val_of(sv.subrange(start as int, i as int)) > 2147483648,
        decreases n - i,
    {
        let ch = s.get_char(i);
        if !is_digit_char(ch) {
            return None;
        }
        let d = digit_value(ch);
        proof {
            let pre = sv.subrange(start as int, i as int);
            let cur = sv.subrange(start as int, i as int + 1);
            assert(cur.drop_last() =~= pre);
            assert(cur.last() == sv[i as int]);
            assert(val_of(cur) == val_of(pre) * 10 + d);
            if over {
                assert(val_of(pre) * 10 + d > 2147483648);
            }
        }
        if !over {
            let next = acc * 10 + (d as u64);
            if next > 2147483648 {
                over = true;
            } else {
                acc = next;
            }
        }
        i = i + 1;
    }
    proof {
        assert(digits =~= sv.subrange(start as int, n as int));
        assert(lenient_shape(sv));
        if neg {
            assert(lenient_val(sv) == -val_of(digits));
        } else if start == 1 {
            assert(lenient_val(sv) == val_of(digits));
        } else {
            assert(digits =~= sv);
        }
    }
    if over {
        return None;
    }
    if neg {
        let v: i32 = (-(acc as i64)) as i32;
        proof {
            assert(v as int == -(acc as int));
        }
        Some(v)
    } else {
        if acc > 2147483647 {
            return None;
        }
        Some(acc as i32)
    }
}

} // verus!
