use vstd::prelude::*;
use vstd::string::*;
use crate::geometry::{COORD_UNITS_PER_DEGREE, MAX_COORD};

verus! {

/// `c` is an ASCII decimal digit.
pub open spec fn is_dec_digit(c: char) -> bool {
    48 <= c as int <= 57
}

/// Every character of `s` is an ASCII decimal digit.
pub open spec fn all_digits(s: Seq<char>) -> bool {
    forall|i: int| 0 <= i < s.len() ==> is_dec_digit(#[trigger] s[i])
}

/// The value of `s` read as a base-10 numeral (meaningful when
/// `all_digits(s)` holds).
pub open spec fn digits_val(s: Seq<char>) -> int
    decreases s.len(),
{
    if s.len() == 0 {
        0
    } else {
        10 * digits_val(s.drop_last()) + (s.last() as int - 48)
    }
}

/// 10 to the power `n`.
pub open spec fn pow10(n: nat) -> int
    decreases n,
{
    if n == 0 {
        1
    } else {
        10 * pow10((n - 1) as nat)
    }
}

pub proof fn lemma_pow10_pos(n: nat)
    ensures
        pow10(n) >= 1,
    decreases n,
{
    if n > 0 {
        lemma_pow10_pos((n - 1) as nat);
    }
}

pub proof fn lemma_pow10_monotone(a: nat, b: nat)
    requires
        a <= b,
    ensures
        pow10(a) <= pow10(b),
    decreases b,
{
    if a < b {
        lemma_pow10_monotone(a, (b - 1) as nat);
        lemma_pow10_pos((b - 1) as nat);
    }
}

pub proof fn lemma_pow10_add(a: nat, b: nat)
    ensures
        pow10(a + b) == pow10(a) * pow10(b),
    decreases b,
{
    if b == 0 {
        assert(pow10(a + 0) == pow10(a) * 1);
    } else {
        lemma_pow10_add(a, (b - 1) as nat);
        assert(pow10(a + b) == 10 * pow10((a + b - 1) as nat));
        assert(10 * (pow10(a) * pow10((b - 1) as nat)) == pow10(a) * (10 * pow10((b - 1) as nat)))
            by (nonlinear_arith);
    }
}

pub proof fn lemma_pow10_upto7()
    ensures
        pow10(6) == 1_000_000,
        pow10(7) == 10_000_000,
{
    assert(pow10(0) == 1);
    assert(pow10(1) == 10);
    assert(pow10(2) == 100);
    assert(pow10(3) == 1000);
    assert(pow10(4) == 10_000);
    assert(pow10(5) == 100_000);
    assert(pow10(6) == 1_000_000);
    assert(pow10(7) == 10_000_000);
}

pub proof fn lemma_digits_val_nonneg(s: Seq<char>)
    requires
        all_digits(s),
    ensures
        digits_val(s) >= 0,
    decreases s.len(),
{
    if s.len() > 0 {
        assert(all_digits(s.drop_last()));
        lemma_digits_val_nonneg(s.drop_last());
    }
}

pub proof fn lemma_digits_val_bound(s: Seq<char>)
    requires
        all_digits(s),
    ensures
        0 <= digits_val(s) < pow10(s.len() as nat),
    decreases s.len(),
{
    if s.len() > 0 {
        assert(all_digits(s.drop_last()));
        lemma_digits_val_bound(s.drop_last());
    }
}

/// Reading more digits never makes the numeral smaller.
pub proof fn lemma_digits_val_monotone(s: Seq<char>, i: int)
    requires
        all_digits(s),
        0 <= i <= s.len(),
    ensures
        digits_val(s.take(i)) <= digits_val(s),
    decreases s.len(),
{
    if i == s.len() {
        assert(s.take(i) =~= s);
    } else {
        assert(all_digits(s.drop_last()));
        lemma_digits_val_monotone(s.drop_last(), i);
        assert(s.take(i) =~= s.drop_last().take(i));
        lemma_digits_val_nonneg(s.drop_last());
    }
}

/// A prefix of an all-digit sequence is all digits.
pub proof fn lemma_all_digits_take(s: Seq<char>, k: int)
    requires
        all_digits(s),
        0 <= k <= s.len(),
    ensures
        all_digits(s.take(k)),
{
    assert forall|l: int| 0 <= l < k implies is_dec_digit(#[trigger] s.take(k)[l]) by {
        assert(s.take(k)[l] == s[l]);
    }
}

/// Extending an all-digit prefix by one digit keeps it all digits.
pub proof fn lemma_all_digits_extend(s: Seq<char>, m: int)
    requires
        0 <= m < s.len(),
        all_digits(s.take(m)),
        is_dec_digit(s[m]),
    ensures
        all_digits(s.take(m + 1)),
{
    assert forall|l: int| 0 <= l < m + 1 implies is_dec_digit(#[trigger] s.take(m + 1)[l]) by {
        assert(s.take(m + 1)[l] == s[l]);
        if l < m {
            assert(s.take(m)[l] == s[l]);
        }
    }
}

/// What an external identifier field denotes: the base-10 value of `s`,
/// provided `s` is one or more ASCII digits and the value fits in `i64`;
/// anything else is malformed.
pub open spec fn osm_id_of(s: Seq<char>) -> Option<i64> {
    if s.len() >= 1 && all_digits(s) && digits_val(s) <= i64::MAX as int {
        Some(digits_val(s) as i64)
    } else {
        None
    }
}

/// See [`osm_id_of`].
pub fn parse_osm_id(s: &str) -> (r: Option<i64>)
    ensures
        r == osm_id_of(s@),
{
    let n = s.unicode_len();
    if n == 0 {
        return None;
    }
    let mut acc: i64 = 0;
    let mut i: usize = 0;
    while i < n
        invariant
            n == s@.len(),
            i <= n,
            all_digits(s@.take(i as int)),
            acc == digits_val(s@.take(i as int)),
            0 <= acc <= i64::MAX,
        decreases n - i,
    {
        let c = s.get_char(i);
        let code = c as u32;
        if code < 48 || code > 57 {
            proof {
                assert(!is_dec_digit(s@[i as int]));
            }
            return None;
        }
        let d: i64 = (code - 48) as i64;
        proof {
            lemma_all_digits_extend(s@, i as int);
            assert(s@.take(i as int + 1).drop_last() =~= s@.take(i as int));
            assert(s@.take(i as int + 1).last() == s@[i as int]);
        }
        let wide: i128 = (acc as i128) * 10 + (d as i128);
        if wide > i64::MAX as i128 {
            proof {
                assert(digits_val(s@.take(i as int + 1)) == wide);
                if all_digits(s@) {
                    lemma_digits_val_monotone(s@, i as int + 1);
                }
            }
            return None;
        }
        acc = wide as i64;
        i = i + 1;
    }
    proof {
        assert(s@.take(n as int) =~= s@);
    }
    Some(acc)
}

/// Index of the first `'.'` in `s`, or `s.len()` if there is none.
pub open spec fn first_dot(s: Seq<char>) -> int
    decreases s.len(),
{
    if s.len() == 0 {
        0
    } else if s[0] == '.' {
        0
    } else {
        1 + first_dot(s.skip(1))
    }
}

pub proof fn lemma_first_dot_props(s: Seq<char>)
    ensures
        0 <= first_dot(s) <= s.len(),
        first_dot(s) < s.len() ==> s[first_dot(s)] == '.',
        forall|j: int| 0 <= j < first_dot(s) ==> s[j] != '.',
    decreases s.len(),
{
    if s.len() == 0 || s[0] == '.' {
    } else {
        lemma_first_dot_props(s.skip(1));
        let fd = first_dot(s);
        assert forall|j: int| 0 <= j < fd implies s[j] != '.' by {
            if j >= 1 {
                assert(s.skip(1)[j - 1] == s[j]);
            }
        }
        if fd < s.len() {
            assert(s.skip(1)[fd - 1] == s[fd]);
        }
    }
}

/// A position with no dot before it that holds a dot (or is the end)
/// is exactly `first_dot`.
pub proof fn lemma_first_dot_at(s: Seq<char>, i: int)
    requires
        0 <= i <= s.len(),
        forall|j: int| 0 <= j < i ==> s[j] != '.',
        i < s.len() ==> s[i] == '.',
    ensures
        first_dot(s) == i,
{
    lemma_first_dot_props(s);
    let fd = first_dot(s);
    if fd < i {
        assert(s[fd] == '.');
    }
    if fd > i {
        assert(s[i] != '.');
    }
}

/// The fractional digits of a coordinate scaled to tenth-microdegrees:
/// the first seven digits count, shorter fractions are padded with zeros,
/// digits beyond the seventh are truncated.
pub open spec fn frac_units(f: Seq<char>) -> int {
    if f.len() >= 7 {
        digits_val(f.take(7))
    } else {
        digits_val(f) * pow10((7 - f.len()) as nat)
    }
}

pub proof fn lemma_frac_units_nonneg(f: Seq<char>)
    requires
        all_digits(f),
    ensures
        frac_units(f) >= 0,
{
    if f.len() >= 7 {
        lemma_all_digits_take(f, 7);
        lemma_digits_val_nonneg(f.take(7));
    } else {
        lemma_digits_val_nonneg(f);
        lemma_pow10_pos((7 - f.len()) as nat);
        assert(digits_val(f) * pow10((7 - f.len()) as nat) >= 0) by (nonlinear_arith)
            requires digits_val(f) >= 0 && pow10((7 - f.len()) as nat) >= 0;
    }
}

/// What a coordinate field denotes, in tenth-microdegrees: digits with at
/// most one `'.'`, at least one digit in all, valued up to [`MAX_COORD`];
/// anything else is malformed.
pub open spec fn coord_of(s: Seq<char>) -> Option<i64> {
    let d = first_dot(s);
    let ip = s.take(d);
    let fp = if d < s.len() {
        s.skip(d + 1)
    } else {
        Seq::<char>::empty()
    };
    if all_digits(ip) && all_digits(fp) && ip.len() + fp.len() >= 1 {
        let v = digits_val(ip) * (COORD_UNITS_PER_DEGREE as int) + frac_units(fp);
        if v <= MAX_COORD as int {
            Some(v as i64)
        } else {
            None
        }
    } else {
        None
    }
}

/// Index of the first `'.'` in `s`, or its length if there is none.
fn find_dot(s: &str) -> (idx: usize)
    ensures
        idx == first_dot(s@),
        idx <= s@.len(),
{
    let n = s.unicode_len();
    let mut i: usize = 0;
    while i < n
        invariant
            n == s@.len(),
            i <= n,
            forall|j: int| 0 <= j < i ==> s@[j] != '.',
        decreases n - i,
    {
        if s.get_char(i) == '.' {
            proof {
                lemma_first_dot_at(s@, i as int);
            }
            return i;
        }
        i = i + 1;
    }
    proof {
        lemma_first_dot_at(s@, n as int);
    }
    n
}

/// See [`coord_of`].
pub fn parse_coord(s: &str) -> (r: Option<i64>)
    ensures
        r == coord_of(s@),
{
    let n = s.unicode_len();
    let dot = find_dot(s);
    let ghost ip = s@.take(dot as int);
    let ghost fp = if (dot as int) < s@.len() {
        s@.skip(dot as int + 1)
    } else {
        Seq::<char>::empty()
    };
    if dot == 0 && n <= 1 {
        // neither an integer digit nor a fractional one
        return None;
    }
    // integer part
    let mut acc: i64 = 0;
    let mut i: usize = 0;
    while i < dot
        invariant
            n == s@.len(),
            dot == first_dot(s@),
            dot <= n,
            ip == s@.take(dot as int),
            fp == if (dot as int) < s@.len() {
                s@.skip(dot as int + 1)
            } else {
                Seq::<char>::empty()
            },
            i <= dot,
            all_digits(s@.take(i as int)),
            acc == digits_val(s@.take(i as int)),
            0 <= acc <= 100_000,
        decreases dot - i,
    {
        let c = s.get_char(i);
        let code = c as u32;
        if code < 48 || code > 57 {
            proof {
                assert(ip[i as int] == s@[i as int]);
                assert(!is_dec_digit(ip[i as int]));
            }
            return None;
        }
        let d: i64 = (code - 48) as i64;
        proof {
            lemma_all_digits_extend(s@, i as int);
            assert(s@.take(i as int + 1).drop_last() =~= s@.take(i as int));
            assert(s@.take(i as int + 1).last() == s@[i as int]);
        }
        let next = acc * 10 + d;
        if next > 100_000 {
            proof {
                assert(digits_val(s@.take(i as int + 1)) == next);
                if all_digits(ip) && all_digits(fp) {
                    assert(s@.take(i as int + 1) =~= ip.take(i as int + 1));
                    lemma_digits_val_monotone(ip, i as int + 1);
                    lemma_frac_units_nonneg(fp);
                }
            }
            return None;
        }
        acc = next;
        i = i + 1;
    }
    proof {
        assert(s@.take(dot as int) =~= ip);
    }
    // fractional part: first seven digits, zero-padded
    let mut frac: i64 = 0;
    let mut k: usize = 0;
    let ghost k0: int = if fp.len() >= 7 {
        7
    } else {
        fp.len() as int
    };
    if dot < n {
        let mut j: usize = dot + 1;
        while j < n
            invariant
                n == s@.len(),
                dot == first_dot(s@),
                dot < n,
                fp == s@.skip(dot as int + 1),
                fp.len() == n - dot - 1,
                dot + 1 <= j <= n,
                all_digits(fp.take(j - dot - 1)),
                k == if j - dot - 1 <= 7 {
                    j - dot - 1
                } else {
                    7
                },
                frac == digits_val(fp.take(k as int)),
                0 <= frac < 10_000_000,
            decreases n - j,
        {
            let ghost m = j - dot - 1;
            let c = s.get_char(j);
            let code = c as u32;
            proof {
                assert(fp[m] == s@[j as int]);
            }
            if code < 48 || code > 57 {
                proof {
                    assert(!is_dec_digit(fp[m]));
                }
                return None;
            }
            proof {
                lemma_all_digits_extend(fp, m);
                assert(fp.take(m + 1).drop_last() =~= fp.take(m));
                assert(fp.take(m + 1).last() == fp[m]);
            }
            if k < 7 {
                proof {
                    lemma_digits_val_bound(fp.take(k as int));
                    lemma_pow10_upto7();
                    lemma_pow10_monotone(k as nat, 6);
                }
                frac = frac * 10 + (code - 48) as i64;
                k = k + 1;
            } else {
                proof {
                    assert(fp.take(m + 1).take(k as int) =~= fp.take(k as int));
                }
            }
            j = j + 1;
        }
        proof {
            assert(fp.take(n - dot - 1) =~= fp);
        }
    }
    proof {
        assert(k == k0);
        if k0 < 7 {
            assert(fp.take(k0) =~= fp);
        }
        lemma_all_digits_take(fp, k0);
    }
    // zero-pad to seven fractional digits
    while k < 7
        invariant
            0 <= k0 <= k <= 7,
            all_digits(fp.take(k0)),
            k0 == if fp.len() >= 7 {
                7
            } else {
                fp.len() as int
            },
            frac == digits_val(fp.take(k0)) * pow10((k - k0) as nat),
            0 <= frac < 10_000_000,
        decreases 7 - k,
    {
        proof {
            let dv = digits_val(fp.take(k0));
            let q = pow10((k - k0) as nat);
            lemma_digits_val_bound(fp.take(k0));
            lemma_pow10_pos((k - k0) as nat);
            lemma_pow10_add(k0 as nat, (k - k0) as nat);
            lemma_pow10_add(k0 as nat, (k + 1 - k0) as nat);
            lemma_pow10_monotone((k + 1) as nat, 7);
            lemma_pow10_upto7();
            assert(pow10((k + 1 - k0) as nat) == 10 * q);
            assert((dv * q) * 10 == dv * (10 * q)) by (nonlinear_arith);
            assert(dv * (10 * q) < pow10(k0 as nat) * (10 * q)) by (nonlinear_arith)
                requires
                    dv < pow10(k0 as nat),
                    10 * q >= 1;
        }
        frac = frac * 10;
        k = k + 1;
    }
    proof {
        if fp.len() >= 7 {
            assert(fp.take(k0) =~= fp.take(7));
            assert(pow10((7 - k0) as nat) == 1);
        }
        assert(frac == frac_units(fp));
    }
    let v = acc * COORD_UNITS_PER_DEGREE + frac;
    if v > MAX_COORD {
        return None;
    }
    Some(v)
}

} // verus!
