//! Fixed-point decimal numbers.
//!
//! Numbers in the configuration and in view-box attributes are written as
//! decimal literals (`"2.5"`, `"-10"`).  They are held as `i64` tick counts,
//! where one unit is `SCALE` ticks; fractional digits beyond the supported
//! precision are truncated, and magnitudes above `MAX_SCALED` ticks are
//! rejected as out of range.

use vstd::prelude::*;

verus! {

use vstd::utf8::is_ascii_chars;

broadcast use vstd::string::is_ascii_spec_bytes;

/// Number of ticks in one user-visible unit (six decimal digits).
pub const SCALE: i64 = 1_000_000;

/// Largest magnitude, in ticks, a parsed number may have.
pub const MAX_SCALED: i64 = 1_000_000_000_000;

pub open spec fn is_digit_char(c: char) -> bool {
    '0' <= c && c <= '9'
}

pub open spec fn digit_val(c: char) -> int {
    c as int - '0' as int
}

pub open spec fn all_digits(s: Seq<char>) -> bool {
    forall|i: int| 0 <= i < s.len() ==> is_digit_char(#[trigger] s[i])
}

/// Value of a string of decimal digits, most significant first.
pub open spec fn digits_val(s: Seq<char>) -> int
    decreases s.len(),
{
    if s.len() == 0 {
        0
    } else {
        digits_val(s.drop_last()) * 10 + digit_val(s.last())
    }
}

pub open spec fn pow10(n: nat) -> int
    decreases n,
{
    if n == 0 {
        1
    } else {
        10 * pow10((n - 1) as nat)
    }
}

/// Splits a number body at its first `'.'`: integer digits, and the
/// fractional digits if a dot is present at all.
pub open spec fn split_dot(s: Seq<char>) -> (Seq<char>, Option<Seq<char>>)
    decreases s.len(),
{
    if s.len() == 0 {
        (Seq::empty(), None)
    } else if s[0] == '.' {
        (Seq::empty(), Some(s.drop_first()))
    } else {
        let r = split_dot(s.drop_first());
        (seq![s[0]].add(r.0), r.1)
    }
}

/// Tick value of the fractional digits: the first six digits, padded with
/// zeros up to six places; further digits are truncated.
pub open spec fn frac_scaled(f: Seq<char>) -> int {
    if f.len() >= 6 {
        digits_val(f.take(6))
    } else {
        digits_val(f) * pow10((6 - f.len()) as nat)
    }
}

/// A well-formed number body: digits, at most one dot, at least one digit.
pub open spec fn body_valid(b: Seq<char>) -> bool {
    let (ip, fo) = split_dot(b);
    all_digits(ip) && match fo {
        None => ip.len() > 0,
        Some(f) => all_digits(f) && ip.len() + f.len() > 0,
    }
}

pub open spec fn body_scaled(b: Seq<char>) -> int {
    let (ip, fo) = split_dot(b);
    digits_val(ip) * SCALE + match fo {
        None => 0int,
        Some(f) => frac_scaled(f),
    }
}

/// What a decimal literal denotes, in ticks: an optional sign, then digits
/// with at most one dot.  `None` for malformed text and for magnitudes
/// beyond `MAX_SCALED`.
pub open spec fn spec_parse_scaled(s: Seq<char>) -> Option<int> {
    if !is_ascii_chars(s) {
        None
    } else {
        let sign: int = if s.len() > 0 && s[0] == '-' {
            -1
        } else {
            1
        };
        let b = if s.len() > 0 && (s[0] == '-' || s[0] == '+') {
            s.drop_first()
        } else {
            s
        };
        if body_valid(b) {
            let v = sign * body_scaled(b);
            if -MAX_SCALED <= v <= MAX_SCALED {
                Some(v)
            } else {
                None
            }
        } else {
            None
        }
    }
}

proof fn lemma_digits_val_bounds(s: Seq<char>)
    requires
        all_digits(s),
    ensures
        0 <= digits_val(s) < pow10(s.len()),
    decreases s.len(),
{
    if s.len() > 0 {
        assert(all_digits(s.drop_last())) by {
            assert(forall|i: int| 0 <= i < s.len() - 1 ==> s.drop_last()[i] == s[i]);
        }
        lemma_digits_val_bounds(s.drop_last());
        assert(is_digit_char(s.last()));
        assert(0 <= digit_val(s.last()) <= 9);
        assert(pow10(s.len()) == 10 * pow10((s.len() - 1) as nat));
    }
}

proof fn lemma_pow10_pos(n: nat)
    ensures
        pow10(n) >= 1,
    decreases n,
{
    if n > 0 {
        lemma_pow10_pos((n - 1) as nat);
    }
}

/// Appending one digit multiplies the value by ten and adds the digit.
proof fn lemma_digits_take_step(s: Seq<char>, i: int)
    requires
        0 <= i < s.len(),
    ensures
        digits_val(s.take(i + 1)) == digits_val(s.take(i)) * 10 + digit_val(s[i]),
{
    assert(s.take(i + 1).drop_last() =~= s.take(i));
    assert(s.take(i + 1).last() == s[i]);
}

/// The value of a digit string dominates the value of any of its prefixes.
proof fn lemma_digits_prefix_le(s: Seq<char>, i: int)
    requires
        all_digits(s),
        0 <= i <= s.len(),
    ensures
        digits_val(s.take(i)) <= digits_val(s),
    decreases s.len() - i,
{
    if i == s.len() {
        assert(s.take(i) =~= s);
    } else {
        assert(all_digits(s.take(i)) && all_digits(s.take(i + 1))) by {
            assert(forall|j: int| 0 <= j < i + 1 ==> s.take(i + 1)[j] == s[j]);
            assert(forall|j: int| 0 <= j < i ==> s.take(i)[j] == s[j]);
        }
        lemma_digits_val_bounds(s.take(i));
        lemma_digits_take_step(s, i);
        lemma_digits_prefix_le(s, i + 1);
    }
}

/// Scans `s[from..to]`, which must be all digits with value at most `cap`;
/// reports which of the two conditions failed otherwise.
fn scan_digits(s: &str, from: usize, to: usize, cap: i64) -> (r: Option<i64>)
    requires
        from <= to <= s@.len(),
        0 <= cap <= 1_000_000_000_000,
    ensures
        match r {
            Some(v) => all_digits(s@.subrange(from as int, to as int)) && v == digits_val(
                s@.subrange(from as int, to as int),
            ) && 0 <= v <= cap,
            None => !all_digits(s@.subrange(from as int, to as int)) || digits_val(
                s@.subrange(from as int, to as int),
            ) > cap,
        },
{
    let ghost sub = s@.subrange(from as int, to as int);
    let mut acc: i64 = 0;
    let mut i: usize = from;
    while i < to
        invariant
            from <= i <= to <= s@.len(),
            sub == s@.subrange(from as int, to as int),
            all_digits(sub.take(i - from)),
            acc == digits_val(sub.take(i - from)),
            0 <= acc <= cap,
            0 <= cap <= 1_000_000_000_000,
        decreases to - i,
    {
        let c = s.get_char(i);
        assert(c == sub[i - from]);
        if !('0' <= c && c <= '9') {
            assert(!is_digit_char(sub[i - from]));
            assert(!all_digits(sub));
            return None;
        }
        let d: i64 = (c as u32 as i64) - ('0' as u32 as i64);
        assert(d == digit_val(sub[i - from]));
        proof {
            lemma_digits_take_step(sub, i - from);
        }
        let next: i64 = acc * 10 + d;
        if next > cap {
            proof {
                assert(all_digits(sub.take(i - from + 1))) by {
                    assert(forall|j: int|
                        0 <= j < i - from + 1 ==> sub.take(i - from + 1)[j] == sub[j]);
                }
                if all_digits(sub) {
                    lemma_digits_prefix_le(sub, i - from + 1);
                }
            }
            return None;
        }
        acc = next;
        i = i + 1;
    }
    assert(sub.take(to - from) =~= sub);
    Some(acc)
}

/// Scans the fractional digits `s[from..to]` and yields their tick value
/// (`frac_scaled`), or `None` when a non-digit occurs.
fn scan_frac(s: &str, from: usize, to: usize) -> (r: Option<i64>)
    requires
        from <= to <= s@.len(),
    ensures
        match r {
            Some(v) => all_digits(s@.subrange(from as int, to as int)) && v == frac_scaled(
                s@.subrange(from as int, to as int),
            ) && 0 <= v < 1_000_000,
            None => !all_digits(s@.subrange(from as int, to as int)),
        },
{
    let ghost sub = s@.subrange(from as int, to as int);
    let mut acc: i64 = 0;
    let mut i: usize = from;
    let mut taken: usize = 0;
    while i < to
        invariant
            from <= i <= to <= s@.len(),
            sub == s@.subrange(from as int, to as int),
            all_digits(sub.take(i - from)),
            taken == if i - from <= 6 {
                i - from
            } else {
                6int
            },
            acc == digits_val(sub.take(taken as int)),
            0 <= acc < 1_000_000,
        decreases to - i,
    {
        let c = s.get_char(i);
        assert(c == sub[i - from]);
        if !('0' <= c && c <= '9') {
            assert(!is_digit_char(sub[i - from]));
            assert(!all_digits(sub));
            return None;
        }
        proof {
            assert(all_digits(sub.take(i - from + 1))) by {
                assert(forall|j: int| 0 <= j < i - from + 1 ==> sub.take(i - from + 1)[j] == sub[j]);
            }
        }
        if taken < 6 {
            let d: i64 = (c as u32 as i64) - ('0' as u32 as i64);
            assert(d == digit_val(sub[i - from]));
            proof {
                lemma_digits_take_step(sub, i - from);
                assert(all_digits(sub.take(taken as int)));
                lemma_digits_val_bounds(sub.take(taken as int));
                lemma_pow10_monotone(taken as nat, 5);
                assert(pow10(5) == 100_000) by {
                    reveal_with_fuel(pow10, 6);
                }
            }
            acc = acc * 10 + d;
            taken = taken + 1;
        }
        i = i + 1;
    }
    assert(sub.take(to - from) =~= sub);
    // Pad with zeros up to six fractional places.
    let mut pad: usize = taken;
    while pad < 6
        invariant
            taken <= pad <= 6,
            taken == if sub.len() <= 6 {
                sub.len() as int
            } else {
                6int
            },
            acc == digits_val(sub.take(taken as int)) * pow10((pad - taken) as nat),
            0 <= acc < 1_000_000,
            all_digits(sub),
        decreases 6 - pad,
    {
        proof {
            let v = digits_val(sub.take(taken as int));
            assert(all_digits(sub.take(taken as int)));
            lemma_digits_val_bounds(sub.take(taken as int));
            lemma_pow10_pos((pad - taken) as nat);
            lemma_pow10_pos((pad + 1 - taken) as nat);
            assert(pow10((pad + 1 - taken) as nat) == 10 * pow10((pad - taken) as nat));
            lemma_pow10_mul_le(taken as nat, (pad + 1 - taken) as nat);
            assert(pow10(6) == 1_000_000) by {
                reveal_with_fuel(pow10, 7);
            }
            assert(acc * 10 == v * pow10((pad + 1 - taken) as nat)) by (nonlinear_arith)
                requires
                    acc == v * pow10((pad - taken) as nat),
                    pow10((pad + 1 - taken) as nat) == 10 * pow10((pad - taken) as nat),
            ;
            assert(v * pow10((pad + 1 - taken) as nat) < 1_000_000) by (nonlinear_arith)
                requires
                    0 <= v < pow10(taken as nat),
                    pow10(taken as nat) * pow10((pad + 1 - taken) as nat) <= pow10(6),
                    pow10((pad + 1 - taken) as nat) >= 1,
                    pow10(6) == 1_000_000,
            ;
        }
        acc = acc * 10;
        pad = pad + 1;
    }
    proof {
        if sub.len() >= 6 {
            assert(acc == digits_val(sub.take(6)));
        } else {
            assert(sub.take(sub.len() as int) =~= sub);
        }
    }
    Some(acc)
}

/// `pow10(a) * pow10(b) == pow10(a + b)`, stated in the shape the padding
/// loop needs: a value below `pow10(a)` stays below `pow10(6)` while fewer
/// than `6 - a` zeros have been appended.
proof fn lemma_pow10_mul_le(a: nat, b: nat)
    requires
        a + b <= 6,
    ensures
        pow10(a) * pow10(b) <= pow10(6),
    decreases b,
{
    if b == 0 {
        lemma_pow10_monotone(a, 6);
    } else {
        lemma_pow10_mul_le(a + 1, (b - 1) as nat);
        assert(pow10(a + 1) == 10 * pow10(a));
        assert(pow10(b) == 10 * pow10((b - 1) as nat));
        lemma_pow10_pos((b - 1) as nat);
        lemma_pow10_pos(a);
        assert(pow10(a) * pow10(b) == (10 * pow10(a)) * pow10((b - 1) as nat)) by (nonlinear_arith)
            requires
                pow10(b) == 10 * pow10((b - 1) as nat),
        ;
    }
}

proof fn lemma_pow10_monotone(a: nat, b: nat)
    requires
        a <= b,
    ensures
        pow10(a) <= pow10(b),
    decreases b,
{
    if a < b {
        lemma_pow10_monotone(a, (b - 1) as nat);
        lemma_pow10_pos((b - 1) as nat);
    }
}

proof fn lemma_split_dot_no_dot(s: Seq<char>)
    requires
        forall|i: int| 0 <= i < s.len() ==> s[i] != '.',
    ensures
        split_dot(s).0 =~= s,
        split_dot(s).1 is None,
    decreases s.len(),
{
    if s.len() > 0 {
        lemma_split_dot_no_dot(s.drop_first());
    }
}

proof fn lemma_split_dot_at(s: Seq<char>, k: int)
    requires
        0 <= k < s.len(),
        s[k] == '.',
        forall|i: int| 0 <= i < k ==> s[i] != '.',
    ensures
        split_dot(s).0 =~= s.take(k),
        split_dot(s).1 is Some,
        split_dot(s).1->0 =~= s.skip(k + 1),
    decreases k,
{
    if k == 0 {
        assert(s.drop_first() =~= s.skip(1));
    } else {
        lemma_split_dot_at(s.drop_first(), k - 1);
        assert(seq![s[0]].add(s.drop_first().take(k - 1)) =~= s.take(k));
        assert(s.drop_first().skip(k) =~= s.skip(k + 1));
    }
}

/// Parses a decimal literal into ticks; `Some(v)` exactly when
/// `spec_parse_scaled` accepts the text, and then `v` is its value.
pub fn parse_scaled(s: &str) -> (r: Option<i64>)
    ensures
        match r {
            Some(v) => spec_parse_scaled(s@) == Some(v as int),
            None => spec_parse_scaled(s@) is None,
        },
{
    if !s.is_ascii() {
        return None;
    }
    let n: usize = s.unicode_len();
    let mut start: usize = 0;
    let mut neg: bool = false;
    if n > 0 {
        let c0 = s.get_char(0);
        if c0 == '-' {
            neg = true;
            start = 1;
        } else if c0 == '+' {
            start = 1;
        }
    }
    let ghost b = if neg || (n > 0 && s@[0] == '+') {
        s@.drop_first()
    } else {
        s@
    };
    assert(b =~= s@.skip(start as int));
    // Find the first dot at or after `start`.
    let mut k: usize = start;
    let mut found_dot = false;
    while k < n && !found_dot
        invariant
            start <= k <= n == s@.len(),
            !found_dot ==> forall|i: int| start <= i < k ==> s@[i] != '.',
            found_dot ==> k < n && s@[k as int] == '.' && forall|i: int|
                start <= i < k ==> s@[i] != '.',
        decreases n - k + if found_dot {
            0int
        } else {
            1int
        },
    {
        if s.get_char(k) == '.' {
            found_dot = true;
        } else {
            k = k + 1;
        }
    }
    proof {
        if found_dot {
            lemma_split_dot_at(b, k - start);
            assert(b.take(k - start) =~= s@.subrange(start as int, k as int));
            assert(b.skip(k - start + 1) =~= s@.subrange(k + 1, n as int));
        } else {
            lemma_split_dot_no_dot(b);
            assert(b.take(k - start) =~= s@.subrange(start as int, k as int));
            assert(b =~= s@.subrange(start as int, k as int));
        }
    }
    let int_val = match scan_digits(s, start, k, 1_000_000) {
        Some(v) => v,
        None => {
            proof {
                let (ip, fo) = split_dot(b);
                if all_digits(ip) && body_valid(b) {
                    assert(digits_val(ip) > 1_000_000);
                    match fo {
                        None => {},
                        Some(f) => {
                            lemma_digits_val_bounds(if f.len() >= 6 {
                                f.take(6)
                            } else {
                                f
                            });
                            lemma_pow10_pos((6 - f.len()) as nat);
                            if f.len() < 6 {
                                lemma_digits_val_bounds(f);
                                lemma_pow10_mul_le(f.len(), (6 - f.len()) as nat);
                            }
                        },
                    }
                    assert(body_scaled(b) > MAX_SCALED) by (nonlinear_arith)
                        requires
                            body_scaled(b) == digits_val(ip) * SCALE + match fo {
                                None => 0int,
                                Some(f) => frac_scaled(f),
                            },
                            digits_val(ip) > 1_000_000,
                            SCALE == 1_000_000,
                            MAX_SCALED == 1_000_000_000_000,
                            (match fo {
                                None => 0int,
                                Some(f) => frac_scaled(f),
                            }) >= 0,
                    ;
                }
            }
            return None;
        },
    };
    let frac_val: i64 = if found_dot {
        match scan_frac(s, k + 1, n) {
            Some(v) => v,
            None => {
                return None;
            },
        }
    } else {
        0
    };
    // At least one digit somewhere in the body.
    if start == k && (!found_dot || k + 1 == n) {
        proof {
            let (ip, fo) = split_dot(b);
            assert(ip.len() == 0);
            assert(!body_valid(b));
        }
        return None;
    }
    proof {
        let (ip, fo) = split_dot(b);
        assert(all_digits(ip));
        assert(body_valid(b));
        assert(body_scaled(b) == int_val * SCALE + frac_val);
    }
    let magnitude: i64 = int_val * 1_000_000 + frac_val;
    if magnitude > MAX_SCALED {
        return None;
    }
    let v: i64 = if neg {
        -magnitude
    } else {
        magnitude
    };
    Some(v)
}

} // verus!
