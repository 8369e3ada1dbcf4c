//! Fixed-point numbers as text.
use crate::fixed::{quotient, Fixed};
use crate::scalar::Scalar;
use crate::text::{decimal, digit_char, digit_of, digit_value, push_decimal, to_digit, TextNumber};
use vstd::prelude::*;

verus! {

/// Largest number of digits of a text that is read.
pub const MAX_DIGITS: u64 = 17;

/// A power of ten.
pub open spec fn power_of_ten(k: nat) -> nat
    decreases k,
{
    if k == 0 {
        1
    } else {
        10 * power_of_ten((k - 1) as nat)
    }
}

/// What has been read of a number.
pub struct Digits {
    /// The digits as a whole number.
    pub value: nat,
    /// How many digits there are.
    pub count: nat,
    /// How many of them stand behind the point.
    pub places: nat,
    /// There is a point.
    pub point: bool,
}

/// The digits of a text that may hold one point.
pub open spec fn digits_in(s: Seq<char>) -> Option<Digits>
    decreases s.len(),
{
    if s.len() == 0 {
        Some(Digits { value: 0, count: 0, places: 0, point: false })
    } else {
        match digits_in(s.drop_last()) {
            None => None,
            Some(d) => if s.last() == '.' {
                if d.point {
                    None
                } else {
                    Some(Digits { point: true, ..d })
                }
            } else {
                match digit_value(s.last()) {
                    None => None,
                    Some(x) => Some(
                        Digits {
                            value: 10 * d.value + x,
                            count: d.count + 1,
                            places: if d.point {
                                d.places + 1
                            } else {
                                d.places
                            },
                            ..d
                        },
                    ),
                }
            },
        }
    }
}

/// A text starts with a sign.
pub open spec fn has_sign(s: Seq<char>) -> bool {
    s.len() > 0 && (s[0] == '-' || s[0] == '+')
}

/// The text after its sign.
pub open spec fn signless(s: Seq<char>) -> Seq<char> {
    if has_sign(s) {
        s.skip(1)
    } else {
        s
    }
}

/// The last `k` digits of a number in decimal.
pub open spec fn wide_decimal(n: nat, k: nat) -> Seq<char>
    decreases k,
{
    if k == 0 {
        Seq::empty()
    } else {
        wide_decimal(n / 10, (k - 1) as nat).push(digit_char((n % 10) as int))
    }
}

proof fn lemma_none_stays(s: Seq<char>, k: int)
    requires
        0 <= k <= s.len(),
        digits_in(s.take(k)) is None,
    ensures
        digits_in(s) is None,
    decreases s.len() - k,
{
    if k < s.len() {
        assert(s.take(k + 1).drop_last() =~= s.take(k));
        lemma_none_stays(s, k + 1);
    } else {
        assert(s.take(k) =~= s);
    }
}

proof fn lemma_count_grows(s: Seq<char>, k: int)
    requires
        0 <= k <= s.len(),
        digits_in(s) is Some,
    ensures
        digits_in(s.take(k)) matches Some(d) && d.count <= digits_in(s)->0.count,
    decreases s.len() - k,
{
    if k < s.len() {
        lemma_count_grows(s, k + 1);
        assert(s.take(k + 1).drop_last() =~= s.take(k));
    } else {
        assert(s.take(k) =~= s);
    }
}

fn push_wide(out: &mut String, n: u64, k: u64)
    ensures
        final(out)@ == old(out)@ + wide_decimal(n as nat, k as nat),
    decreases k,
{
    if k > 0 {
        push_wide(out, n / 10, k - 1);
        out.push(to_digit(n % 10));
    }
    assert(out@ =~= old(out)@ + wide_decimal(n as nat, k as nat));
}

impl TextNumber for Fixed {
    /// Digits with an optional sign and an optional point, at least one digit and
    /// at most seventeen.
    open spec fn read_spec(s: Seq<char>) -> Option<Self> {
        match digits_in(signless(s)) {
            Some(d) => if 0 < d.count <= MAX_DIGITS {
                let v = if has_sign(s) && s[0] == '-' {
                    -(d.value as int)
                } else {
                    d.value as int
                };
                Some(Fixed { raw: quotient(v, power_of_ten(d.places) as int) })
            } else {
                None
            },
            None => None,
        }
    }

    /// The exact value: a sign, the whole part, and sixteen digits behind a point
    /// unless they are zero.
    open spec fn shown_spec(self) -> Seq<char> {
        let size = if self.raw < 0 {
            -(self.raw as int)
        } else {
            self.raw as int
        };
        let sign = if self.raw < 0 {
            seq!['-']
        } else {
            Seq::<char>::empty()
        };
        let part = (size % 65536) * 152587890625;
        let tail = if part == 0 {
            Seq::<char>::empty()
        } else {
            seq!['.'] + wide_decimal(part as nat, 16)
        };
        sign + decimal((size / 65536) as nat) + tail
    }

    fn read(s: &[char]) -> Option<Self> {
        let n: usize = s.len();
        let signed: bool = n > 0 && (s[0] == '-' || s[0] == '+');
        let from: usize = if signed {
            1
        } else {
            0
        };
        let ghost d = signless(s@);
        assert(d =~= s@.skip(from as int));
        let mut value: i64 = 0;
        let mut count: u64 = 0;
        let mut scale: i64 = 1;
        let mut point: bool = false;
        let mut i: usize = from;
        let ghost mut places: nat = 0;
        assert(d.take(0) =~= Seq::empty());
        proof {
            reveal_with_fuel(power_of_ten, 18);
        }
        while i < n
            invariant
                from <= i <= n == s@.len(),
                d == s@.skip(from as int),
                d == signless(s@),
                count <= MAX_DIGITS,
                0 <= value < power_of_ten(count as nat),
                places <= count,
                scale == power_of_ten(places),
                digits_in(d.take(i - from)) == Some(
                    Digits { value: value as nat, count: count as nat, places, point },
                ),
                power_of_ten(17) == 100000000000000000,
                forall|k: nat|
                    k < 17 ==> #[trigger] power_of_ten(k) <= 10000000000000000,
            decreases n - i,
        {
            let c: char = s[i];
            let ghost k = i - from;
            assert(d[k] == c);
            assert(d.take(k + 1).drop_last() =~= d.take(k));
            if c == '.' {
                if point {
                    proof {
                        lemma_none_stays(d, k + 1);
                    }
                    return None;
                }
                point = true;
            } else {
                let x: u64 = match digit_of(c) {
                    Some(x) => x,
                    None => {
                        proof {
                            lemma_none_stays(d, k + 1);
                        }
                        return None;
                    },
                };
                if count >= MAX_DIGITS {
                    proof {
                        if digits_in(d) is Some {
                            lemma_count_grows(d, k + 1);
                        }
                    }
                    return None;
                }
                assert(power_of_ten(count as nat) <= 10000000000000000);
                value = value * 10 + x as i64;
                count = count + 1;
                if point {
                    assert(power_of_ten(places) <= 10000000000000000);
                    scale = scale * 10;
                    proof {
                        places = places + 1;
                    }
                }
            }
            i = i + 1;
        }
        assert(d.take(n - from) =~= d);
        if count == 0 {
            return None;
        }
        let v: i64 = if signed && s[0] == '-' {
            -value
        } else {
            value
        };
        Some(Fixed::ratio(v, scale))
    }

    fn show(self, out: &mut String) {
        let ghost before = out@;
        let size: u64 = if self.raw < 0 {
            out.push('-');
            (-(self.raw as i128)) as u64
        } else {
            self.raw as u64
        };
        let whole: u64 = size / 65536;
        let part: u64 = (size % 65536) * 152587890625;
        push_decimal(out, whole);
        if part != 0 {
            out.push('.');
            push_wide(out, part, 16);
        }
        assert(out@ =~= before + self.shown_spec());
    }
}

} // verus!
