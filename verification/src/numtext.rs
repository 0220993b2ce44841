//! Decimal text for connection identifiers and configuration values.
//!
//! Identifiers appear in notification text (`"connected <id>"`) and whisper
//! targets, so the broker fixes one decimal form and verifies both the
//! formatter and the parser against the same spec functions.
use vstd::prelude::*;

verus! {

pub open spec fn is_digit_char(c: char) -> bool {
    ('0' as int) <= (c as int) && (c as int) <= ('9' as int)
}

pub open spec fn digit_val(c: char) -> int {
    c as int - ('0' as int)
}

pub open spec fn all_digits(s: Seq<char>) -> bool {
    forall|i: int| 0 <= i < s.len() ==> is_digit_char(#[trigger] s[i])
}

/// The number a digit string denotes (most significant digit first).
pub open spec fn dec_value(s: Seq<char>) -> int
    decreases s.len(),
{
    if s.len() == 0 {
        0
    } else {
        dec_value(s.drop_last()) * 10 + digit_val(s.last())
    }
}

pub open spec fn digit_char(d: int) -> char {
    if d == 0 {
        '0'
    } else if d == 1 {
        '1'
    } else if d == 2 {
        '2'
    } else if d == 3 {
        '3'
    } else if d == 4 {
        '4'
    } else if d == 5 {
        '5'
    } else if d == 6 {
        '6'
    } else if d == 7 {
        '7'
    } else if d == 8 {
        '8'
    } else {
        '9'
    }
}

/// The canonical decimal form of a non-negative number: no sign, no leading
/// zeros (except for zero itself).
pub open spec fn dec_str(n: int) -> Seq<char>
    decreases n,
{
    if n < 10 {
        seq![digit_char(n)]
    } else {
        dec_str(n / 10).push(digit_char(n % 10))
    }
}

/// A string that `parse_u128` accepts: non-empty, digits only, in range.
pub open spec fn is_u128_text(s: Seq<char>) -> bool {
    s.len() >= 1 && all_digits(s) && dec_value(s) <= u128::MAX
}

/// A string that `parse_u64` accepts.
pub open spec fn is_u64_text(s: Seq<char>) -> bool {
    s.len() >= 1 && all_digits(s) && dec_value(s) <= u64::MAX
}

proof fn lemma_dec_value_take_step(s: Seq<char>, i: int)
    requires
        0 <= i < s.len(),
    ensures
        dec_value(s.take(i + 1)) == dec_value(s.take(i)) * 10 + digit_val(s[i]),
{
    assert(s.take(i + 1).drop_last() =~= s.take(i));
    assert(s.take(i + 1).last() == s[i]);
}

proof fn lemma_dec_value_nonneg(s: Seq<char>)
    requires
        all_digits(s),
    ensures
        dec_value(s) >= 0,
    decreases s.len(),
{
    if s.len() > 0 {
        assert forall|i: int| 0 <= i < s.drop_last().len() implies is_digit_char(
            #[trigger] s.drop_last()[i],
        ) by {
            assert(s.drop_last()[i] == s[i]);
            assert(is_digit_char(s[i]));
        }
        lemma_dec_value_nonneg(s.drop_last());
        assert(is_digit_char(s.last()));
        assert(digit_val(s.last()) >= 0);
        assert(dec_value(s) == dec_value(s.drop_last()) * 10 + digit_val(s.last()));
    }
}

proof fn lemma_dec_value_take_mono(s: Seq<char>, i: int)
    requires
        all_digits(s),
        0 <= i <= s.len(),
    ensures
        dec_value(s.take(i)) <= dec_value(s),
    decreases s.len() - i,
{
    if i == s.len() {
        assert(s.take(i) =~= s);
    } else {
        lemma_dec_value_take_step(s, i);
        assert forall|j: int| 0 <= j < s.take(i).len() implies is_digit_char(
            #[trigger] s.take(i)[j],
        ) by {
            assert(s.take(i)[j] == s[j]);
            assert(is_digit_char(s[j]));
        }
        lemma_dec_value_nonneg(s.take(i));
        assert(is_digit_char(s[i]));
        assert(digit_val(s[i]) >= 0);
        assert(dec_value(s.take(i)) <= dec_value(s.take(i + 1)));
        lemma_dec_value_take_mono(s, i + 1);
    }
}

/// The canonical decimal form of `n` is non-empty, all digits, and denotes `n`.
pub proof fn lemma_dec_str_value(n: int)
    requires
        n >= 0,
    ensures
        all_digits(dec_str(n)),
        dec_str(n).len() >= 1,
        dec_value(dec_str(n)) == n,
    decreases n,
{
    if n < 10 {
        let s = dec_str(n);
        assert(s == seq![digit_char(n)]);
        assert(s.len() == 1);
        assert(s.drop_last() =~= Seq::<char>::empty());
        assert(dec_value(s.drop_last()) == 0);
        assert(s.last() == digit_char(n));
        assert(is_digit_char(digit_char(n)));
        assert(digit_val(digit_char(n)) == n);
        assert forall|i: int| 0 <= i < s.len() implies is_digit_char(#[trigger] s[i]) by {
            assert(s[i] == digit_char(n));
        }
        assert(dec_value(s) == 0 * 10 + n);
    } else {
        lemma_dec_str_value(n / 10);
        vstd::arithmetic::div_mod::lemma_fundamental_div_mod(n, 10);
        let p = dec_str(n / 10);
        let s = dec_str(n);
        assert(s == p.push(digit_char(n % 10)));
        assert(s.drop_last() =~= p);
        assert(s.last() == digit_char(n % 10));
        assert(0 <= n % 10 < 10);
        assert(is_digit_char(digit_char(n % 10)));
        assert(digit_val(digit_char(n % 10)) == n % 10);
        assert forall|i: int| 0 <= i < s.len() implies is_digit_char(#[trigger] s[i]) by {
            if i < p.len() {
                assert(s[i] == p[i]);
                assert(is_digit_char(p[i]));
            } else {
                assert(s[i] == digit_char(n % 10));
            }
        }
        assert(dec_value(s) == dec_value(p) * 10 + digit_val(s.last()));
        assert(dec_value(s) == (n / 10) * 10 + n % 10);
    }
}

/// The canonical decimal form of an identifier is accepted by the parser and
/// denotes the identifier itself: a peer that reads an id out of notification
/// text can whisper back to exactly that session.
pub proof fn lemma_dec_round_trip(n: u128)
    ensures
        is_u128_text(dec_str(n as int)),
        dec_value(dec_str(n as int)) == n,
{
    lemma_dec_str_value(n as int);
}

fn digit_text(d: u128) -> (r: &'static str)
    requires
        d < 10,
    ensures
        r@ =~= seq![digit_char(d as int)],
{
    if d == 0 {
        proof { reveal_strlit("0"); }
        "0"
    } else if d == 1 {
        proof { reveal_strlit("1"); }
        "1"
    } else if d == 2 {
        proof { reveal_strlit("2"); }
        "2"
    } else if d == 3 {
        proof { reveal_strlit("3"); }
        "3"
    } else if d == 4 {
        proof { reveal_strlit("4"); }
        "4"
    } else if d == 5 {
        proof { reveal_strlit("5"); }
        "5"
    } else if d == 6 {
        proof { reveal_strlit("6"); }
        "6"
    } else if d == 7 {
        proof { reveal_strlit("7"); }
        "7"
    } else if d == 8 {
        proof { reveal_strlit("8"); }
        "8"
    } else {
        proof { reveal_strlit("9"); }
        "9"
    }
}

/// Format an identifier in its canonical decimal form.
pub fn u128_to_string(n: u128) -> (s: String)
    ensures
        s@ == dec_str(n as int),
    decreases n,
{
    if n < 10 {
        String::from_str(digit_text(n))
    } else {
        let mut s = u128_to_string(n / 10);
        s.append(digit_text(n % 10));
        proof {
            assert(dec_str((n / 10) as int) + seq![digit_char((n % 10) as int)] =~= dec_str(
                (n / 10) as int,
            ).push(digit_char((n % 10) as int)));
        }
        s
    }
}

/// Parse a decimal identifier; `None` exactly on text that is empty, holds a
/// non-digit, or denotes a number out of range.
pub fn parse_u128(s: &str) -> (r: Option<u128>)
    ensures
        is_u128_text(s@) ==> r == Some(dec_value(s@) as u128),
        !is_u128_text(s@) ==> r == None::<u128>,
{
    let len = s.unicode_len();
    if len == 0 {
        return None;
    }
    let mut v: u128 = 0;
    let mut i: usize = 0;
    while i < len
        invariant
            0 <= i <= len,
            len == s@.len(),
            all_digits(s@.take(i as int)),
            v == dec_value(s@.take(i as int)),
        decreases len - i,
    {
        let c = s.get_char(i);
        let u = c as u32;
        proof {
            assert(c as int == u as int);
        }
        if u < 48 || u > 57 {
            proof {
                assert(s@[i as int] == c);
                assert(!is_digit_char(c));
                assert(!all_digits(s@));
            }
            return None;
        }
        let d = (u - 48) as u128;
        proof {
            assert(is_digit_char(c));
            assert(digit_val(c) == d as int);
            lemma_dec_value_take_step(s@, i as int);
            lemma_dec_value_nonneg(s@.take(i as int));
        }
        if v > (u128::MAX - d) / 10 {
            proof {
                let m = (u128::MAX - d) as int;
                vstd::arithmetic::div_mod::lemma_fundamental_div_mod(m, 10);
                assert(v as int * 10 + d as int > u128::MAX);
                assert(dec_value(s@.take(i as int + 1)) > u128::MAX);
                if all_digits(s@) {
                    lemma_dec_value_take_mono(s@, i as int + 1);
                }
                assert(!is_u128_text(s@));
            }
            return None;
        }
        proof {
            let m = (u128::MAX - d) as int;
            vstd::arithmetic::div_mod::lemma_fundamental_div_mod(m, 10);
            assert(v as int * 10 + d as int <= u128::MAX);
        }
        v = v * 10 + d;
        i = i + 1;
    }
    proof {
        assert(s@.take(len as int) =~= s@);
    }
    Some(v)
}

/// Parse a decimal configuration value; `None` exactly on text that is empty,
/// holds a non-digit, or denotes a number out of range.
pub fn parse_u64(s: &str) -> (r: Option<u64>)
    ensures
        is_u64_text(s@) ==> r == Some(dec_value(s@) as u64),
        !is_u64_text(s@) ==> r == None::<u64>,
{
    match parse_u128(s) {
        Some(v) => {
            proof {
                assert(is_u128_text(s@));
                lemma_dec_value_nonneg(s@);
            }
            if v <= u64::MAX as u128 {
                Some(v as u64)
            } else {
                proof {
                    assert(dec_value(s@) > u64::MAX);
                    assert(!is_u64_text(s@));
                }
                None
            }
        },
        None => {
            proof {
                if is_u64_text(s@) {
                    assert(is_u128_text(s@));
                }
            }
            None
        },
    }
}

} // verus!
