//! Decimal text of an epoch-seconds timestamp, as entries store it.
use vstd::prelude::*;

verus! {

/// The character of a decimal digit `d` (0 to 9).
pub open spec fn digit_char(d: nat) -> char {
    seq!['0', '1', '2', '3', '4', '5', '6', '7', '8', '9'][d as int]
}

pub open spec fn is_digit(c: char) -> bool {
    '0' <= c && c <= '9'
}

pub open spec fn all_digits(s: Seq<char>) -> bool {
    forall|i: int| 0 <= i < s.len() ==> is_digit(#[trigger] s[i])
}

/// The number that a run of decimal digits denotes.
pub open spec fn digits_value(s: Seq<char>) -> nat
    decreases s.len(),
{
    if s.len() == 0 {
        0
    } else {
        digits_value(s.drop_last()) * 10 + ((s.last() as int) - ('0' as int)) as nat
    }
}

/// The shortest decimal digits of `n`.
pub open spec fn digits_text(n: nat) -> Seq<char>
    decreases n,
{
    if n < 10 {
        seq![digit_char(n)]
    } else {
        digits_text(n / 10).push(digit_char(n % 10))
    }
}

/// The text of a timestamp: its digits, after a minus sign when it is negative.
pub open spec fn timestamp_text(t: i64) -> Seq<char> {
    if t < 0 {
        seq!['-'] + digits_text((-t) as nat)
    } else {
        digits_text(t as nat)
    }
}

/// The timestamp that a text denotes: an optional sign, then one or more
/// decimal digits, with a value that fits in `i64`; `None` for any other text.
pub open spec fn timestamp_of(s: Seq<char>) -> Option<i64> {
    if s.len() > 0 && s[0] == '-' {
        let d = s.subrange(1, s.len() as int);
        if d.len() > 0 && all_digits(d) && digits_value(d) <= 0x8000_0000_0000_0000 {
            Some((-digits_value(d)) as i64)
        } else {
            None
        }
    } else {
        let d = if s.len() > 0 && s[0] == '+' {
            s.subrange(1, s.len() as int)
        } else {
            s
        };
        if d.len() > 0 && all_digits(d) && digits_value(d) <= 0x7fff_ffff_ffff_ffff {
            Some(digits_value(d) as i64)
        } else {
            None
        }
    }
}

proof fn lemma_digits_text(n: nat)
    ensures
        digits_text(n).len() > 0,
        all_digits(digits_text(n)),
        digits_value(digits_text(n)) == n,
        is_digit(digits_text(n)[0]),
    decreases n,
{
    reveal_with_fuel(digits_text, 2);
    if n < 10 {
        let s = digits_text(n);
        assert(s.drop_last() =~= Seq::<char>::empty());
        assert(digits_value(s.drop_last()) == 0);
    } else {
        lemma_digits_text(n / 10);
        let p = digits_text(n / 10);
        let s = p.push(digit_char(n % 10));
        assert(s.drop_last() =~= p);
        assert(s[0] == p[0]);
    }
}

/// Reading back the text of a timestamp gives the same timestamp.
pub proof fn lemma_timestamp_text_round_trip(t: i64)
    ensures
        timestamp_of(timestamp_text(t)) == Some(t),
{
    if t < 0 {
        let n = (-t) as nat;
        lemma_digits_text(n);
        let s = timestamp_text(t);
        assert(s.subrange(1, s.len() as int) =~= digits_text(n));
    } else {
        lemma_digits_text(t as nat);
    }
}

fn append_digit(out: &mut String, d: u64)
    requires
        d < 10,
    ensures
        final(out)@ == old(out)@.push(digit_char(d as nat)),
{
    let s: &str = if d == 0 {
        "0"
    } else if d == 1 {
        "1"
    } else if d == 2 {
        "2"
    } else if d == 3 {
        "3"
    } else if d == 4 {
        "4"
    } else if d == 5 {
        "5"
    } else if d == 6 {
        "6"
    } else if d == 7 {
        "7"
    } else if d == 8 {
        "8"
    } else {
        "9"
    };
    proof {
        reveal_strlit("0");
        reveal_strlit("1");
        reveal_strlit("2");
        reveal_strlit("3");
        reveal_strlit("4");
        reveal_strlit("5");
        reveal_strlit("6");
        reveal_strlit("7");
        reveal_strlit("8");
        reveal_strlit("9");
    }
    assert(s@ =~= seq![digit_char(d as nat)]);
    out.append(s);
}

fn append_digits(out: &mut String, n: u64)
    ensures
        final(out)@ == old(out)@ + digits_text(n as nat),
    decreases n,
{
    if n < 10 {
        append_digit(out, n);
        assert(final(out)@ =~= old(out)@ + digits_text(n as nat));
    } else {
        append_digits(out, n / 10);
        append_digit(out, n % 10);
        assert(final(out)@ =~= old(out)@ + digits_text(n as nat));
    }
}

/// Writes a timestamp as decimal text.
pub fn format_timestamp(t: i64) -> (r: String)
    ensures
        r@ == timestamp_text(t),
{
    let mut out = String::new();
    if t < 0 {
        out.append("-");
        proof {
            reveal_strlit("-");
        }
        let n: u64 = (0i128 - t as i128) as u64;
        append_digits(&mut out, n);
        assert(out@ =~= timestamp_text(t));
    } else {
        append_digits(&mut out, t as u64);
        assert(out@ =~= timestamp_text(t));
    }
    out
}

/// Reads a timestamp from text; `None` where the text is no timestamp.
pub fn parse_timestamp(s: &str) -> (r: Option<i64>)
    ensures
        r == timestamp_of(s@),
{
    let len = s.unicode_len();
    if len == 0 {
        return None;
    }
    let first = s.get_char(0);
    let negative = first == '-';
    let start: usize = if first == '-' || first == '+' {
        1
    } else {
        0
    };
    if start == len {
        return None;
    }
    let ghost d = s@.subrange(start as int, len as int);
    // the magnitude, held at `cap` once it passes every value that fits
    let cap: u64 = 0x8000_0000_0000_0001;
    let mut acc: u64 = 0;
    let mut i: usize = start;
    while i < len
        invariant
            start <= i <= len,
            len == s@.len(),
            cap == 0x8000_0000_0000_0001,
            s@[0] == first,
            negative == (first == '-'),
            start == (if first == '-' || first == '+' {
                1usize
            } else {
                0usize
            }),
            d == s@.subrange(start as int, len as int),
            all_digits(s@.subrange(start as int, i as int)),
            acc as nat == if digits_value(s@.subrange(start as int, i as int)) < cap {
                digits_value(s@.subrange(start as int, i as int))
            } else {
                cap as nat
            },
        decreases len - i,
    {
        let c = s.get_char(i);
        if !('0' <= c && c <= '9') {
            proof {
                assert(d[i - start] == c);
                assert(!is_digit(d[i - start]));
                assert(!all_digits(d));
                assert(s@[0] == first);
                if start == 0 {
                    assert(d =~= s@);
                }
                assert(timestamp_of(s@) is None);
            }
            return None;
        }
        let ghost before = s@.subrange(start as int, i as int);
        let ghost after = s@.subrange(start as int, i + 1);
        let digit: u64 = (c as u32 - '0' as u32) as u64;
        proof {
            assert(after.drop_last() =~= before);
            assert(after.last() == c);
            assert(digits_value(after) == digits_value(before) * 10 + digit);
            assert(all_digits(after)) by {
                assert forall|j: int| 0 <= j < after.len() implies is_digit(#[trigger] after[j]) by {
                    if j < before.len() {
                        assert(after[j] == before[j]);
                    }
                }
            }
        }
        if acc < cap {
            assert(acc == digits_value(before));
            if acc >= 0x0ccc_cccc_cccc_cccd {
                acc = cap;
            } else {
                acc = acc * 10 + digit;
                if acc > cap {
                    acc = cap;
                }
            }
        } else {
            assert(digits_value(before) >= cap);
            assert(digits_value(after) >= cap);
        }
        assert(acc as nat == if digits_value(after) < cap {
            digits_value(after)
        } else {
            cap as nat
        });
        i = i + 1;
    }
    proof {
        assert(s@.subrange(start as int, len as int) =~= d);
        if start == 0 {
            assert(d =~= s@);
        }
    }
    if negative {
        if acc <= 0x8000_0000_0000_0000 {
            Some((0i128 - acc as i128) as i64)
        } else {
            None
        }
    } else {
        if acc <= 0x7fff_ffff_ffff_ffff {
            Some(acc as i64)
        } else {
            None
        }
    }
}

} // verus!
