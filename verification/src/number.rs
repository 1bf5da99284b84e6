//! JSON numbers as the engine ingress reads a magnitude: no sign, an
//! integer part, maybe a fraction, maybe an exponent; the value is the
//! number rounded down, and must be a positive `u64`.

use crate::text::{all_digits, digits_value, is_digit, lemma_digits_value_prefix, parse_unsigned_exec};
use vstd::prelude::*;

verus! {

/// How many ASCII digits begin at `i`.
pub open spec fn digits_at(s: Seq<u8>, i: int) -> nat
    decreases s.len() - i,
{
    if 0 <= i < s.len() && 0x30 <= s[i] <= 0x39 {
        1 + digits_at(s, i + 1)
    } else {
        0
    }
}

/// Ten to the power `n`.
pub open spec fn pow10(n: nat) -> nat
    decreases n,
{
    if n == 0 {
        1
    } else {
        10 * pow10((n - 1) as nat)
    }
}

/// `d · 10^k`, rounded down (for a negative `k`, `d / 10^-k`).
pub open spec fn scale_down(d: nat, k: int) -> nat {
    if k >= 0 {
        d * pow10(k as nat)
    } else {
        d / pow10((-k) as nat)
    }
}

/// The significant digits of a number whose integer part is `s[i..i + n]`
/// and whose fraction, after the `.`, is the `f` digits that follow.
pub open spec fn number_digits(s: Seq<u8>, i: int, n: int, f: int) -> Seq<u8> {
    if f == 0 {
        s.subrange(i, i + n)
    } else {
        s.subrange(i, i + n) + s.subrange(i + n + 1, i + n + 1 + f)
    }
}

/// The exponent that may start at `q`: `e` or `E`, an optional sign, and at
/// least one digit; its value and the length of its text, `(0, 0)` when
/// there is none, `None` when it is malformed.
pub open spec fn exponent_at(s: Seq<u8>, q: int) -> Option<(int, nat)> {
    if 0 <= q < s.len() && (s[q] == 0x65 || s[q] == 0x45) {
        let sg: int = if q + 1 < s.len() && (s[q + 1] == 0x2b || s[q + 1] == 0x2d) {
            1
        } else {
            0
        };
        let x = digits_at(s, q + 1 + sg);
        if x == 0 {
            None
        } else {
            let v = digits_value(s.subrange(q + 1 + sg, q + 1 + sg + x)) as int;
            Some(
                (
                    if sg == 1 && s[q + 1] == 0x2d {
                        -v
                    } else {
                        v
                    },
                    (1 + sg + x) as nat,
                ),
            )
        }
    } else {
        Some((0, 0))
    }
}

/// The JSON number without sign that starts at `i`, with the length of its
/// text: an integer part (`0`, or digits without a leading zero), maybe `.`
/// and at least one digit, maybe an exponent. Its value is the number
/// rounded down, and must lie in `1..=u64::MAX`.
pub open spec fn number_at(s: Seq<u8>, i: int) -> Option<(u64, nat)> {
    let n = digits_at(s, i);
    if n == 0 || (n > 1 && s[i] == 0x30) {
        None
    } else {
        let has_frac = i + n < s.len() && s[i + n] == 0x2e;
        let f: nat = if has_frac {
            digits_at(s, i + n + 1)
        } else {
            0
        };
        if has_frac && f == 0 {
            None
        } else {
            let q = i + n + (if has_frac {
                f + 1
            } else {
                0
            });
            match exponent_at(s, q) {
                None => None,
                Some((e, el)) => {
                    let v = scale_down(digits_value(number_digits(s, i, n as int, f as int)), e - f);
                    if 1 <= v <= u64::MAX {
                        Some((v as u64, (q - i + el) as nat))
                    } else {
                        None
                    }
                },
            }
        }
    }
}

/// Length of the run of digits at `i`.
pub fn digits_at_exec(s: &[u8], i: usize) -> (k: usize)
    requires
        i <= s@.len(),
    ensures
        k == digits_at(s@, i as int),
        i + k <= s@.len(),
{
    let mut j = i;
    while j < s.len() && 0x30 <= s[j] && s[j] <= 0x39
        invariant
            i <= j <= s@.len(),
            digits_at(s@, i as int) == (j - i) + digits_at(s@, j as int),
        decreases s@.len() - j,
    {
        j = j + 1;
    }
    j - i
}

/// The digits that `digits_at` counts are digits.
proof fn lemma_digits_at(s: Seq<u8>, i: int)
    requires
        0 <= i,
    ensures
        i + digits_at(s, i) <= s.len() || digits_at(s, i) == 0,
        forall|j: int| i <= j < i + digits_at(s, i) ==> is_digit(#[trigger] s[j]),
        i + digits_at(s, i) < s.len() ==> !is_digit(s[i + digits_at(s, i)]),
    decreases s.len() - i,
{
    if 0 <= i < s.len() && 0x30 <= s[i] <= 0x39 {
        lemma_digits_at(s, i + 1);
    }
}

/// Powers of ten are positive.
proof fn lemma_pow10_pos(n: nat)
    ensures
        pow10(n) >= 1,
    decreases n,
{
    if n > 0 {
        lemma_pow10_pos((n - 1) as nat);
    }
}

/// Powers of ten grow.
proof fn lemma_pow10_mono(a: nat, b: nat)
    requires
        a <= b,
    ensures
        1 <= pow10(a) <= pow10(b),
    decreases b,
{
    lemma_pow10_pos(a);
    if b > a {
        lemma_pow10_mono(a, (b - 1) as nat);
    }
}

/// `10^20` exceeds every `u64`; `10^19` does not.
proof fn lemma_pow10_20()
    ensures
        pow10(20) > u64::MAX,
        pow10(19) <= u64::MAX,
{
    reveal_with_fuel(pow10, 21);
}

/// A number of `n` digits is below `10^n`.
proof fn lemma_digits_value_bound(s: Seq<u8>)
    requires
        all_digits(s),
    ensures
        digits_value(s) < pow10(s.len()),
    decreases s.len(),
{
    if s.len() > 0 {
        let t = s.drop_last();
        assert(all_digits(t)) by {
            assert forall|i: int| 0 <= i < t.len() implies is_digit(#[trigger] t[i]) by {
                assert(t[i] == s[i]);
            }
        }
        lemma_digits_value_bound(t);
        assert(is_digit(s[s.len() - 1]));
    }
}

/// Dropping the last `j` digits divides by `10^j`, rounding down.
proof fn lemma_digits_value_div(s: Seq<u8>, j: nat)
    requires
        all_digits(s),
        j <= s.len(),
    ensures
        digits_value(s) / pow10(j) == digits_value(s.take(s.len() - j)),
    decreases j,
{
    if j == 0 {
        assert(s.take(s.len() as int) =~= s);
        assert(pow10(0) == 1);
    } else {
        let t = s.drop_last();
        assert(all_digits(t)) by {
            assert forall|i: int| 0 <= i < t.len() implies is_digit(#[trigger] t[i]) by {
                assert(t[i] == s[i]);
            }
        }
        assert(is_digit(s[s.len() - 1]));
        let d = digits_value(s);
        let dt = digits_value(t);
        assert(d / 10 == dt);
        lemma_digits_value_div(t, (j - 1) as nat);
        assert(t.take(t.len() - (j - 1)) =~= s.take(s.len() - j));
        lemma_pow10_pos((j - 1) as nat);
        vstd::arithmetic::div_mod::lemma_div_denominator(d as int, 10, pow10((j - 1) as nat) as int);
        assert(pow10(j) == 10 * pow10((j - 1) as nat));
        assert(d / pow10(j) == (d / 10) / pow10((j - 1) as nat));
    }
}

/// A value times a power of ten at least `10^20` exceeds every `u64`.
proof fn lemma_scale_overflows(d: nat, k: nat)
    requires
        d >= 1,
        k >= 20,
    ensures
        d * pow10(k) > u64::MAX,
{
    lemma_pow10_mono(20, k);
    lemma_pow10_20();
    assert(d * pow10(k) >= pow10(k)) by (nonlinear_arith)
        requires
            d >= 1,
    ;
}

/// `scale_down` rounds down: for a negative `k` its result `v` is the one
/// with `v · 10^-k <= d < (v + 1) · 10^-k`, and for `k >= 0` it is exactly
/// `d · 10^k`.
pub proof fn lemma_scale_down_floor(d: nat, k: int)
    ensures
        k >= 0 ==> scale_down(d, k) == d * pow10(k as nat),
        k < 0 ==> scale_down(d, k) * pow10((-k) as nat) <= d < (scale_down(d, k) + 1) * pow10(
            (-k) as nat,
        ),
{
    if k < 0 {
        let p = pow10((-k) as nat);
        lemma_pow10_pos((-k) as nat);
        let v = d / p;
        vstd::arithmetic::div_mod::lemma_fundamental_div_mod(d as int, p as int);
        vstd::arithmetic::div_mod::lemma_mod_pos_bound(d as int, p as int);
        assert(v * p <= d) by (nonlinear_arith)
            requires
                d == p * v + d % p,
                d % p >= 0,
        ;
        assert((v + 1) * p == p * v + p) by (nonlinear_arith);
        assert(d < (v + 1) * p);
    }
}

/// Ten to the power `n`, unfolded: `10^0 = 1` and `10^(n+1) = 10 · 10^n`.
pub proof fn lemma_pow10_steps(n: nat)
    ensures
        pow10(0) == 1,
        pow10(n + 1) == 10 * pow10(n),
{
}

/// The exponent at `q`: whether it is negative, its absolute value when it
/// fits a `u64` (`None` when it is larger), and the length of its text.
fn exponent_exec(s: &[u8], q: usize) -> (r: Option<(bool, Option<u64>, usize)>)
    requires
        q <= s@.len(),
    ensures
        match r {
            None => exponent_at(s@, q as int) is None,
            Some((neg, ea, l)) => exponent_at(s@, q as int) matches Some((e, el)) && el == l && q
                + l <= s@.len() && (neg ==> e <= 0) && (!neg ==> e >= 0) && match ea {
                Some(v) => v == (if neg {
                    -e
                } else {
                    e
                }),
                None => (if neg {
                    -e
                } else {
                    e
                }) > u64::MAX && l >= 21,
            },
        },
{
    let len = s.len();
    if !(q < len && (s[q] == 0x65 || s[q] == 0x45)) {
        return Some((false, Some(0), 0));
    }
    let sg: usize = if q + 1 < len && (s[q + 1] == 0x2b || s[q + 1] == 0x2d) {
        1
    } else {
        0
    };
    let neg = sg == 1 && s[q + 1] == 0x2d;
    let st = q + 1 + sg;
    let x = digits_at_exec(s, st);
    if x == 0 {
        return None;
    }
    proof {
        lemma_digits_at(s@, st as int);
        assert(all_digits(s@.subrange(st as int, st + x))) by {
            assert forall|j: int| 0 <= j < x implies is_digit(
                #[trigger] s@.subrange(st as int, st + x)[j],
            ) by {
                assert(s@.subrange(st as int, st + x)[j] == s@[st + j]);
            }
        }
        assert(s@.subrange(st as int, st + x)[0] == s@[st as int]);
    }
    let ea = parse_unsigned_exec(s, st, st + x, u64::MAX);
    proof {
        if ea is None {
            let ex = s@.subrange(st as int, st + x);
            lemma_digits_value_bound(ex);
            lemma_pow10_20();
            if x < 20 {
                lemma_pow10_mono(x as nat, 19);
            }
        }
    }
    Some((neg, ea, 1 + sg + x))
}

/// The byte of the `t`-th significant digit.
pub open spec fn digit_pos(i: int, n: int, t: int) -> int {
    if t < n {
        i + t
    } else {
        i + 1 + t
    }
}

/// The value of the first `keep` significant digits, when it fits a `u64`.
fn prefix_value(s: &[u8], i: usize, n: usize, f: usize, keep: usize) -> (r: Option<u64>)
    requires
        n >= 1,
        keep <= n + f,
        i + n + (if f > 0 {
            f + 1
        } else {
            0
        }) <= s@.len(),
        all_digits(number_digits(s@, i as int, n as int, f as int)),
    ensures
        match r {
            Some(v) => v == digits_value(number_digits(s@, i as int, n as int, f as int).take(
                keep as int,
            )),
            None => digits_value(number_digits(s@, i as int, n as int, f as int).take(keep as int))
                > u64::MAX,
        },
{
    let len = s.len();
    let ghost ds = number_digits(s@, i as int, n as int, f as int);
    assert(ds.len() == n + f);
    let mut acc: u64 = 0;
    let mut t: usize = 0;
    assert(ds.take(0) =~= Seq::<u8>::empty());
    while t < keep
        invariant
            keep <= n + f == ds.len(),
            len == s@.len(),
            n >= 1,
            i + n + (if f > 0 {
                f + 1
            } else {
                0
            }) <= s@.len(),
            ds == number_digits(s@, i as int, n as int, f as int),
            all_digits(ds),
            t <= keep,
            acc == digits_value(ds.take(t as int)),
        decreases keep - t,
    {
        let pos = if t < n {
            i + t
        } else {
            i + 1 + t
        };
        assert(ds[t as int] == s@[pos as int]);
        let b = s[pos];
        assert(is_digit(ds[t as int]));
        assert(ds.take(t + 1).drop_last() =~= ds.take(t as int));
        assert(ds.take(t + 1).last() == b);
        let next: u128 = acc as u128 * 10 + (b - 0x30) as u128;
        if next > u64::MAX as u128 {
            proof {
                let whole = ds.take(keep as int);
                assert(all_digits(whole)) by {
                    assert forall|j: int| 0 <= j < whole.len() implies is_digit(#[trigger] whole[j]) by {
                        assert(whole[j] == ds[j]);
                    }
                }
                lemma_digits_value_prefix(whole, t + 1);
                assert(whole.take(t + 1) =~= ds.take(t + 1));
            }
            return None;
        }
        acc = next as u64;
        t = t + 1;
    }
    Some(acc)
}

/// The value `d · 10^(e - f)` rounded down, where `d` spells the `n + f`
/// significant digits and `e` is the exponent (its sign `neg` and its
/// absolute value `ea`, `None` when that exceeds a `u64`); `None` when the
/// value is zero or exceeds a `u64`.
fn scaled_value(
    s: &[u8],
    i: usize,
    n: usize,
    f: usize,
    neg: bool,
    ea: Option<u64>,
    Ghost(e): Ghost<int>,
) -> (r: Option<u64>)
    requires
        n >= 1,
        i + n + (if f > 0 {
            f + 1
        } else {
            0
        }) + 21 <= s@.len() || ea is Some,
        i + n + (if f > 0 {
            f + 1
        } else {
            0
        }) <= s@.len(),
        all_digits(number_digits(s@, i as int, n as int, f as int)),
        neg ==> e <= 0,
        !neg ==> e >= 0,
        match ea {
            Some(v) => v == (if neg {
                -e
            } else {
                e
            }),
            None => (if neg {
                -e
            } else {
                e
            }) > u64::MAX,
        },
    ensures
        ({
            let v = scale_down(digits_value(number_digits(s@, i as int, n as int, f as int)), e - f);
            match r {
                Some(x) => x == v && v >= 1,
                None => v == 0 || v > u64::MAX,
            }
        }),
{
    let len = s.len();
    let ghost ds = number_digits(s@, i as int, n as int, f as int);
    let ghost d = digits_value(ds);
    proof {
        assert(ds.len() == n + f);
        lemma_digits_value_bound(ds);
    }
    let v: u64;
    if neg {
        let keep = match ea {
            Some(a) => if a < n as u64 {
                n - a as usize
            } else {
                0
            },
            None => 0,
        };
        proof {
            let drop = (-e + f) as nat;
            if keep == 0 {
                lemma_pow10_mono((n + f) as nat, drop);
                vstd::arithmetic::div_mod::lemma_basic_div(d as int, pow10(drop) as int);
                assert(ds.take(0) =~= Seq::<u8>::empty());
            } else {
                lemma_digits_value_div(ds, drop);
            }
            if e - f == 0 {
                assert(keep == n && f == 0);
                assert(ds.take(keep as int) =~= ds);
                assert(pow10(0) == 1);
                assert(d * pow10(0) == d) by (nonlinear_arith)
                    requires
                        pow10(0) == 1,
                ;
            }
            if e - f < 0 {
                assert((-(e - f)) as nat == drop);
                assert(scale_down(d, e - f) == d / pow10(drop));
                if keep == 0 {
                    assert(digits_value(ds.take(0)) == 0);
                } else {
                    assert(ds.len() - drop == keep);
                }
            }
            assert(scale_down(d, e - f) == digits_value(ds.take(keep as int)));
        }
        v = match prefix_value(s, i, n, f, keep) {
            Some(x) => x,
            None => return None,
        };
    } else {
        let a = match ea {
            Some(a) => a,
            None => {
                proof {
                    if d >= 1 {
                        lemma_scale_overflows(d, (e - f) as nat);
                    } else {
                        assert(d * pow10((e - f) as nat) == 0) by (nonlinear_arith)
                            requires
                                d == 0,
                        ;
                    }
                }
                return None;
            },
        };
        if a < f as u64 {
            let keep = n + a as usize;
            proof {
                lemma_digits_value_div(ds, (f - a) as nat);
            }
            v = match prefix_value(s, i, n, f, keep) {
                Some(x) => x,
                None => return None,
            };
        } else {
            let k = a - f as u64;
            if k >= 20 {
                proof {
                    if d >= 1 {
                        lemma_scale_overflows(d, k as nat);
                    } else {
                        assert(d * pow10(k as nat) == 0) by (nonlinear_arith)
                            requires
                                d == 0,
                        ;
                    }
                }
                return None;
            }
            proof {
                assert(ds.take((n + f) as int) =~= ds);
            }
            let base = match prefix_value(s, i, n, f, n + f) {
                Some(x) => x,
                None => {
                    proof {
                        lemma_pow10_mono(0, k as nat);
                        assert(d * pow10(k as nat) >= d) by (nonlinear_arith)
                            requires
                                pow10(k as nat) >= 1,
                        ;
                    }
                    return None;
                },
            };
            let mut r: u64 = base;
            let mut t: u64 = 0;
            assert(pow10(0) == 1);
            assert(d * pow10(0) == d);
            while t < k
                invariant
                    t <= k < 20,
                    base == d,
                    d == digits_value(number_digits(s@, i as int, n as int, f as int)),
                    e - f == k as int,
                    r == d * pow10(t as nat),
                decreases k - t,
            {
                proof {
                    assert(pow10((t + 1) as nat) == 10 * pow10(t as nat));
                    assert(d * pow10((t + 1) as nat) == (d * pow10(t as nat)) * 10) by (nonlinear_arith)
                        requires
                            pow10((t + 1) as nat) == 10 * pow10(t as nat),
                    ;
                }
                r = match r.checked_mul(10) {
                    Some(x) => x,
                    None => {
                        proof {
                            lemma_pow10_mono((t + 1) as nat, k as nat);
                            assert(d * pow10(k as nat) >= d * pow10((t + 1) as nat)) by (nonlinear_arith)
                                requires
                                    pow10(k as nat) >= pow10((t + 1) as nat),
                            ;
                        }
                        return None;
                    },
                };
                t = t + 1;
            }
            v = r;
        }
    }
    if v == 0 {
        return None;
    }
    Some(v)
}

/// Reads the number at `i`, as `number_at` says.
pub fn number_at_exec(s: &[u8], i: usize) -> (r: Option<(u64, usize)>)
    requires
        i <= s@.len(),
    ensures
        match r {
            Some((v, l)) => number_at(s@, i as int) == Some((v, l as nat)) && i + l <= s@.len(),
            None => number_at(s@, i as int) is None,
        },
{
    let len = s.len();
    let n = digits_at_exec(s, i);
    if n == 0 || (n > 1 && s[i] == 0x30) {
        return None;
    }
    let has_frac = i + n < len && s[i + n] == 0x2e;
    let f = if has_frac {
        digits_at_exec(s, i + n + 1)
    } else {
        0
    };
    if has_frac && f == 0 {
        return None;
    }
    let q = i + n + if has_frac {
        f + 1
    } else {
        0
    };
    let (neg, ea, el) = match exponent_exec(s, q) {
        Some(x) => x,
        None => return None,
    };
    let ghost e = exponent_at(s@, q as int).unwrap().0;
    proof {
        let ds = number_digits(s@, i as int, n as int, f as int);
        lemma_digits_at(s@, i as int);
        if has_frac {
            lemma_digits_at(s@, i + n + 1);
        }
        assert(ds.len() == n + f);
        assert(all_digits(ds)) by {
            assert forall|j: int| 0 <= j < ds.len() implies is_digit(#[trigger] ds[j]) by {
                if j < n {
                    assert(ds[j] == s@[i + j]);
                } else {
                    assert(ds[j] == s@[i + 1 + j]);
                }
            }
        }
    }
    let v = match scaled_value(s, i, n, f, neg, ea, Ghost(e)) {
        Some(v) => v,
        None => return None,
    };
    Some((v, q - i + el))
}

} // verus!
