//! Token-level text helpers: reading an id token, reading a priority
//! token, joining words, and stripping the id marker.

use vstd::prelude::*;
use crate::digits::{is_digit, dec_val, dec_digits, lemma_dec_digits_shape, lemma_dec_val_of_digits,
    lemma_dec_val_prefix};

verus! {

/// Every character is a decimal digit.
pub open spec fn all_digits(s: Seq<char>) -> bool {
    forall|j: int| 0 <= j < s.len() ==> is_digit(#[trigger] s[j])
}

/// The id named by a token: the token must be the canonical decimal form
/// of an id, digits only, no leading zero, within range.
pub open spec fn token_id(tok: Seq<char>) -> Option<u64> {
    if tok.len() >= 1 && all_digits(tok) && (
    tok.len() == 1 || tok[0] != '0') && dec_val(tok) <= u64::MAX {
        Some(dec_val(tok) as u64)
    } else {
        None
    }
}

/// The canonical decimal form of an id names that id.
pub proof fn lemma_token_id_of_digits(n: u64)
    ensures
        token_id(dec_digits(n as nat)) == Some(n),
{
    lemma_dec_digits_shape(n as nat);
    lemma_dec_val_of_digits(n as nat);
    if n == 0 {
        assert(dec_digits(0).len() == 1);
    }
}

/// Reads an id token.
pub fn parse_id(tok: &str) -> (r: Option<u64>)
    ensures
        r == token_id(tok@),
{
    let n = tok.unicode_len();
    if n == 0 {
        return None;
    }
    if n > 1 && tok.get_char(0) == '0' {
        return None;
    }
    let mut i: usize = 0;
    let mut val: u64 = 0;
    while i < n
        invariant
            i <= n,
            n == tok@.len(),
            forall|j: int| 0 <= j < i ==> is_digit(#[trigger] tok@[j]),
            val == dec_val(tok@.take(i as int)),
        decreases n - i,
    {
        let c = tok.get_char(i);
        let cu = c as u32;
        if cu < 48 || cu > 57 {
            proof {
                assert(!is_digit(tok@[i as int]));
                assert(!all_digits(tok@));
            }
            return None;
        }
        let d = (cu - 48) as u64;
        proof {
            assert(tok@.take(i + 1).drop_last() =~= tok@.take(i as int));
            assert(tok@.take(i + 1).last() == tok@[i as int]);
            assert(is_digit(tok@[i as int]));
            assert(dec_val(tok@.take(i + 1)) == dec_val(tok@.take(i as int)) * 10 + d);
        }
        if val > (u64::MAX - d) / 10 {
            proof {
                assert(val * 10 + d > u64::MAX) by (nonlinear_arith)
                    requires
                        val > (u64::MAX - d) / 10,
                        d <= 9,
                ;
                assert(dec_val(tok@.take(i + 1)) > u64::MAX);
                lemma_dec_val_prefix(tok@.take(i + 1), tok@.skip(i + 1));
                assert(tok@.take(i + 1) + tok@.skip(i + 1) =~= tok@);
                assert(dec_val(tok@) > u64::MAX);
            }
            return None;
        }
        proof {
            assert(val * 10 + d <= u64::MAX) by (nonlinear_arith)
                requires
                    val <= (u64::MAX - d) / 10,
                    d <= 9,
            ;
        }
        val = val * 10 + d;
        i += 1;
    }
    proof {
        assert(tok@.take(n as int) =~= tok@);
        assert(all_digits(tok@));
    }
    Some(val)
}

/// The value of a priority token, read as Rust reads an unsigned byte: an
/// optional leading plus sign, then decimal digits, value at most 255.
pub open spec fn u8_token_val(s: Seq<char>) -> Option<u8> {
    let body = if s.len() >= 1 && s[0] == '+' {
        s.drop_first()
    } else {
        s
    };
    if body.len() >= 1 && all_digits(body) && dec_val(body) <= 255 {
        Some(dec_val(body) as u8)
    } else {
        None
    }
}

/// Reads a priority token.
pub fn parse_u8_token(tok: &str) -> (r: Option<u8>)
    ensures
        r == u8_token_val(tok@),
{
    let n = tok.unicode_len();
    let start: usize = if n >= 1 && tok.get_char(0) == '+' {
        1
    } else {
        0
    };
    let ghost body = if tok@.len() >= 1 && tok@[0] == '+' {
        tok@.drop_first()
    } else {
        tok@
    };
    proof {
        assert(body =~= tok@.skip(start as int));
    }
    if n == start {
        return None;
    }
    let mut i: usize = start;
    let mut val: u64 = 0;
    while i < n
        invariant
            start <= i <= n,
            n == tok@.len(),
            body == tok@.skip(start as int),
            body == (if tok@.len() >= 1 && tok@[0] == '+' {
                tok@.drop_first()
            } else {
                tok@
            }),
            forall|j: int| 0 <= j < i - start ==> is_digit(#[trigger] body[j]),
            val == dec_val(body.take(i - start)),
            val <= 255,
        decreases n - i,
    {
        let c = tok.get_char(i);
        let cu = c as u32;
        if cu < 48 || cu > 57 {
            proof {
                assert(body[i - start] == tok@[i as int]);
                assert(0 <= i - start < body.len());
                assert(!is_digit(body[i - start]));
                assert(!all_digits(body));
            }
            return None;
        }
        let d = (cu - 48) as u64;
        proof {
            assert(body[i - start] == tok@[i as int]);
            assert(body.take(i - start + 1).drop_last() =~= body.take(i - start));
            assert(body.take(i - start + 1).last() == body[i - start]);
            assert(dec_val(body.take(i - start + 1)) == val * 10 + d);
        }
        let next = val * 10 + d;
        if next > 255 {
            proof {
                lemma_dec_val_prefix(body.take(i - start + 1), body.skip(i - start + 1));
                assert(body.take(i - start + 1) + body.skip(i - start + 1) =~= body);
                assert(dec_val(body) > 255);
            }
            return None;
        }
        val = next;
        i += 1;
    }
    proof {
        assert(body.take(n - start) =~= body);
        assert(all_digits(body));
    }
    Some(val as u8)
}

/// Words joined with a separator.
pub open spec fn spec_join(parts: Seq<Seq<char>>, sep: Seq<char>) -> Seq<char>
    decreases parts.len(),
{
    if parts.len() == 0 {
        Seq::empty()
    } else if parts.len() == 1 {
        parts[0]
    } else {
        spec_join(parts.drop_last(), sep) + sep + parts.last()
    }
}

/// Joins owned words with a separator.
pub fn join_with(parts: &Vec<String>, sep: &str) -> (r: String)
    ensures
        r@ == spec_join(parts@.map_values(|p: String| p@), sep@),
{
    let ghost gp = parts@.map_values(|p: String| p@);
    let mut r = String::new();
    let mut i: usize = 0;
    while i < parts.len()
        invariant
            i <= parts.len(),
            gp == parts@.map_values(|p: String| p@),
            gp.len() == parts@.len(),
            forall|j: int| 0 <= j < gp.len() ==> gp[j] == #[trigger] parts@[j]@,
            r@ == spec_join(gp.take(i as int), sep@),
        decreases parts.len() - i,
    {
        if i > 0 {
            r.append(sep);
        }
        r.append(parts[i].as_str());
        i += 1;
        proof {
            assert(gp.take(i as int).drop_last() =~= gp.take(i - 1));
            assert(gp.take(i as int).last() == gp[i - 1]);
            if i == 1 {
                assert(r@ == spec_join(gp.take(i as int), sep@));
            }
        }
    }
    proof {
        assert(gp.take(parts@.len() as int) =~= gp);
    }
    r
}

/// A token names ids or boards when it opens with the marker.
pub open spec fn starts_at(s: Seq<char>) -> bool {
    s.len() >= 1 && s[0] == '@'
}

pub fn starts_with_at(s: &str) -> (r: bool)
    ensures
        r == starts_at(s@),
{
    if s.unicode_len() == 0 {
        false
    } else {
        s.get_char(0) == '@'
    }
}

/// The token with every id marker removed.
pub open spec fn strip_at(s: Seq<char>) -> Seq<char>
    decreases s.len(),
{
    if s.len() == 0 {
        Seq::empty()
    } else {
        strip_at(s.drop_last()) + (if s.last() == '@' {
            Seq::<char>::empty()
        } else {
            seq![s.last()]
        })
    }
}

/// Removes every id marker from a token.
pub fn strip_at_exec(s: &str) -> (r: String)
    ensures
        r@ == strip_at(s@),
{
    let n = s.unicode_len();
    let mut r = String::new();
    let mut i: usize = 0;
    while i < n
        invariant
            i <= n,
            n == s@.len(),
            r@ == strip_at(s@.take(i as int)),
        decreases n - i,
    {
        let c = s.get_char(i);
        proof {
            assert(s@.take(i + 1).drop_last() =~= s@.take(i as int));
            assert(s@.take(i + 1).last() == s@[i as int]);
        }
        if c != '@' {
            let piece = s.substring_char(i, i + 1);
            proof {
                assert(piece@ =~= seq![s@[i as int]]);
            }
            r.append(piece);
        }
        i += 1;
    }
    proof {
        assert(s@.take(n as int) =~= s@);
    }
    r
}

} // verus!
