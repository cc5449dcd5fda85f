//! Parsing of annotation score text.
//!
//! Scores arrive from the store as strings and are load-bearing domain
//! values, so the engine parses them itself and treats failure as an
//! error rather than defaulting. The accepted shape is that of Rust's
//! signed decimal integers: an optional `+` or `-` sign followed by
//! one or more decimal digits, with the value in `i32` range.

use vstd::prelude::*;
use vstd::string::*;

verus! {

/// A decimal digit `0`..=`9`.
pub open spec fn is_dec_digit(c: char) -> bool {
    48 <= c as int <= 57
}

/// Numeric value of a decimal digit.
pub open spec fn digit_val(c: char) -> int {
    c as int - 48
}

/// Every character of the sequence is a decimal digit.
pub open spec fn all_digits(s: Seq<char>) -> bool {
    forall|i: int| 0 <= i < s.len() ==> is_dec_digit(#[trigger] s[i])
}

/// Value of an unsigned digit string, most significant digit first.
pub open spec fn dec_val(s: Seq<char>) -> int
    decreases s.len(),
{
    if s.len() == 0 {
        0
    } else {
        dec_val(s.drop_last()) * 10 + digit_val(s.last())
    }
}

/// The digit part of a literal: everything after an optional sign.
pub open spec fn literal_body(s: Seq<char>) -> Seq<char> {
    if s.len() > 0 && (s[0] == '+' || s[0] == '-') {
        s.drop_first()
    } else {
        s
    }
}

/// The sign of a literal: `-1` for a leading `-`, else `1`.
pub open spec fn literal_sign(s: Seq<char>) -> int {
    if s.len() > 0 && s[0] == '-' {
        -1
    } else {
        1
    }
}

/// The sequence is a well-formed signed decimal literal.
pub open spec fn is_int_literal(s: Seq<char>) -> bool {
    literal_body(s).len() > 0 && all_digits(literal_body(s))
}

/// Mathematical value of a well-formed literal.
pub open spec fn int_literal_val(s: Seq<char>) -> int {
    literal_sign(s) * dec_val(literal_body(s))
}

/// The sequence parses as an `i32`: well formed and in range.
pub open spec fn parses_to_i32(s: Seq<char>) -> bool {
    is_int_literal(s) && i32::MIN <= int_literal_val(s) <= i32::MAX
}

/// A digit string never has a negative value.
pub proof fn lemma_dec_val_nonneg(s: Seq<char>)
    requires
        all_digits(s),
    ensures
        dec_val(s) >= 0,
    decreases s.len(),
{
    if s.len() > 0 {
        assert(all_digits(s.drop_last())) by {
            assert forall|i: int| 0 <= i < s.drop_last().len() implies is_dec_digit(
                #[trigger] s.drop_last()[i],
            ) by {
                assert(s.drop_last()[i] == s[i]);
            }
        }
        lemma_dec_val_nonneg(s.drop_last());
    }
}

/// Extending a digit string can only grow its value.
pub proof fn lemma_dec_val_prefix_le(s: Seq<char>, i: int)
    requires
        all_digits(s),
        0 <= i <= s.len(),
    ensures
        dec_val(s.subrange(0, i)) <= dec_val(s),
    decreases s.len() - i,
{
    if i == s.len() {
        assert(s.subrange(0, i) =~= s);
    } else {
        let p = s.subrange(0, i);
        let q = s.subrange(0, i + 1);
        assert(all_digits(p)) by {
            assert forall|j: int| 0 <= j < p.len() implies is_dec_digit(#[trigger] p[j]) by {
                assert(p[j] == s[j]);
            }
        }
        lemma_dec_val_nonneg(p);
        assert(q.drop_last() =~= p);
        assert(q.last() == s[i]);
        assert(dec_val(q) == dec_val(p) * 10 + digit_val(s[i]));
        lemma_dec_val_prefix_le(s, i + 1);
    }
}

/// Parse a signed decimal `i32`, returning `None` exactly when the
/// text is not a well-formed in-range literal.
pub fn parse_i32(s: &str) -> (r: Option<i32>)
    ensures
        match r {
            Some(v) => parses_to_i32(s@) && v as int == int_literal_val(s@),
            None => !parses_to_i32(s@),
        },
{
    let len = s.unicode_len();
    if len == 0 {
        return None;
    }
    let first = s.get_char(0);
    let neg = first == '-';
    let signed: bool = first == '-' || first == '+';
    let start: usize = if signed {
        1
    } else {
        0
    };
    proof {
        assert(literal_body(s@) =~= s@.subrange(start as int, len as int));
    }
    if start == len {
        // a bare sign has no digits
        return None;
    }
    let mut i: usize = start;
    let mut acc: i64 = 0;
    while i < len
        invariant
            len == s@.len(),
            start <= i <= len,
            start <= 1,
            literal_body(s@) =~= s@.subrange(start as int, len as int),
            neg == (literal_sign(s@) == -1),
            0 <= acc <= 2147483648i64,
            acc == dec_val(s@.subrange(start as int, i as int)),
            all_digits(s@.subrange(start as int, i as int)),
        decreases len - i,
    {
        let c = s.get_char(i);
        let u = c as u32;
        if u < 48 || u > 57 {
            proof {
                assert(literal_body(s@)[i - start as int] == s@[i as int]);
                assert(!is_int_literal(s@));
            }
            return None;
        }
        let ghost pre = s@.subrange(start as int, i as int);
        let ghost cur = s@.subrange(start as int, i + 1 as int);
        proof {
            assert(cur.drop_last() =~= pre);
            assert(cur.last() == s@[i as int]);
            assert forall|j: int| 0 <= j < cur.len() implies is_dec_digit(#[trigger] cur[j]) by {
                if j < cur.len() - 1 {
                    assert(cur[j] == pre[j]);
                }
            }
        }
        acc = acc * 10 + ((u - 48) as i64);
        if acc > 2147483648i64 {
            proof {
                if is_int_literal(s@) {
                    let body = literal_body(s@);
                    assert(cur =~= body.subrange(0, i + 1 - start as int));
                    lemma_dec_val_prefix_le(body, i + 1 - start as int);
                    assert(dec_val(body) >= acc);
                }
            }
            return None;
        }
        i += 1;
        proof {
            assert(s@.subrange(start as int, i as int) =~= cur);
        }
    }
    proof {
        assert(s@.subrange(start as int, i as int) =~= literal_body(s@));
        assert(is_int_literal(s@));
    }
    if neg {
        let v: i64 = -acc;
        proof {
            assert(int_literal_val(s@) == -dec_val(literal_body(s@)));
            assert(i32::MIN <= v <= i32::MAX);
        }
        Some(v as i32)
    } else {
        if acc > 2147483647i64 {
            proof {
                assert(int_literal_val(s@) == acc);
            }
            return None;
        }
        Some(acc as i32)
    }
}

} // verus!
