//! The page addressing scheme: a three-part path `/item_id/file_index/page_index`
//! that the presentation layer uses to request one page's bytes.

use vstd::prelude::*;
use crate::codec::{digit_val, is_digit_char};
use crate::text::{chars_of, string_from_chars};

verus! {

/// Index of the first `/` at or after `from`, or the length when none
/// follows.
pub open spec fn slash_or_end(s: Seq<char>, from: int) -> int
    decreases s.len() - from,
{
    if from < 0 || from >= s.len() {
        s.len() as int
    } else if s[from] == '/' {
        from
    } else {
        slash_or_end(s, from + 1)
    }
}

proof fn lemma_slash_or_end(s: Seq<char>, from: int)
    requires
        0 <= from <= s.len(),
    ensures
        from <= slash_or_end(s, from) <= s.len(),
        slash_or_end(s, from) < s.len() ==> s[slash_or_end(s, from)] == '/',
        forall|j: int| from <= j < slash_or_end(s, from) ==> s[j] != '/',
    decreases s.len() - from,
{
    if from < s.len() && s[from] != '/' {
        lemma_slash_or_end(s, from + 1);
    }
}

/// Every character is a digit, and there is at least one.
pub open spec fn all_digits(s: Seq<char>) -> bool {
    s.len() > 0 && forall|i: int| 0 <= i < s.len() ==> is_digit_char(#[trigger] s[i])
}

/// The number a digit run denotes.
pub open spec fn digits_val(s: Seq<char>) -> nat
    decreases s.len(),
{
    if s.len() == 0 {
        0
    } else {
        digits_val(s.drop_last()) * 10 + digit_val(s.last())
    }
}

proof fn lemma_digits_val_prefix(s: Seq<char>, j: int)
    requires
        0 <= j <= s.len(),
    ensures
        digits_val(s.take(j)) <= digits_val(s),
    decreases s.len() - j,
{
    if j < s.len() {
        lemma_digits_val_prefix(s, j + 1);
        assert(s.take(j + 1).drop_last() =~= s.take(j));
        assert(digits_val(s.take(j + 1)) == digits_val(s.take(j)) * 10 + digit_val(
            s.take(j + 1).last(),
        ));
        assert(digits_val(s.take(j)) <= digits_val(s.take(j)) * 10) by (nonlinear_arith)
            requires
                digits_val(s.take(j)) >= 0,
        ;
    } else {
        assert(s.take(j) =~= s);
    }
}

/// The parse a pages address denotes: the item id and the two indices, when
/// the address is `/` followed by three `/`-separated fields whose last two
/// are numbers in range. Anything after a fourth `/` is ignored.
pub open spec fn sp_parse_pages_uri(u: Seq<char>) -> Option<(Seq<char>, usize, usize)> {
    if u.len() == 0 || u[0] != '/' {
        None
    } else {
        let a = slash_or_end(u, 1);
        if a >= u.len() {
            None
        } else {
            let b = slash_or_end(u, a + 1);
            if b >= u.len() {
                None
            } else {
                let c = slash_or_end(u, b + 1);
                let fs = u.subrange(a + 1, b);
                let ps = u.subrange(b + 1, c);
                if all_digits(fs) && all_digits(ps) && digits_val(fs) <= usize::MAX
                    && digits_val(ps) <= usize::MAX {
                    Some(
                        (
                            u.subrange(1, a),
                            digits_val(fs) as usize,
                            digits_val(ps) as usize,
                        ),
                    )
                } else {
                    None
                }
            }
        }
    }
}

/// Finds the first `/` in `s` at or after `from`.
fn find_slash(s: &Vec<char>, from: usize) -> (r: usize)
    requires
        from <= s@.len(),
    ensures
        r == slash_or_end(s@, from as int),
        from <= r <= s@.len(),
{
    let mut i: usize = from;
    while i < s.len() && s[i] != '/'
        invariant
            from <= i <= s@.len(),
            slash_or_end(s@, from as int) == slash_or_end(s@, i as int),
        decreases s@.len() - i,
    {
        i = i + 1;
    }
    i
}

/// Parses the digit run `s[from..to]` into a number.
fn parse_field(s: &Vec<char>, from: usize, to: usize) -> (r: Option<usize>)
    requires
        from <= to <= s@.len(),
    ensures
        ({
            let d = s@.subrange(from as int, to as int);
            r == if all_digits(d) && digits_val(d) <= usize::MAX {
                Some(digits_val(d) as usize)
            } else {
                None::<usize>
            }
        }),
{
    let ghost d = s@.subrange(from as int, to as int);
    if from == to {
        proof {
            assert(!all_digits(d));
        }
        return None;
    }
    let mut acc: usize = 0;
    let mut i: usize = from;
    while i < to
        invariant
            from <= i <= to <= s@.len(),
            d == s@.subrange(from as int, to as int),
            forall|j: int| 0 <= j < i - from ==> is_digit_char(#[trigger] d[j]),
            acc == digits_val(d.take(i - from)),
        decreases to - i,
    {
        let c: char = s[i];
        proof {
            assert(d[i - from] == s@[i as int]);
        }
        if c < '0' || c > '9' {
            proof {
                assert(!is_digit_char(d[i - from]));
            }
            return None;
        }
        let digit: usize = ((c as u64) - 48) as usize;
        proof {
            assert(is_digit_char(d[i - from]));
            assert(digit_val(d[i - from]) == digit);
            assert(d.take(i - from + 1).drop_last() =~= d.take(i - from));
            assert(d.take(i - from + 1).last() == d[i - from]);
        }
        if acc > (usize::MAX - digit) / 10 {
            proof {
                lemma_digits_val_prefix(d, i - from + 1);
                assert(digits_val(d.take(i - from + 1)) == acc * 10 + digit);
                assert(acc * 10 + digit > usize::MAX) by (nonlinear_arith)
                    requires
                        acc > (usize::MAX - digit) / 10,
                        0 <= digit <= 9,
                        acc >= 0,
                ;
            }
            return None;
        }
        proof {
            assert(acc * 10 + digit <= usize::MAX) by (nonlinear_arith)
                requires
                    acc <= (usize::MAX - digit) / 10,
                    0 <= digit <= 9,
                    acc >= 0,
            ;
            assert(10 * acc == acc * 10);
        }
        acc = 10 * acc + digit;
        i = i + 1;
    }
    proof {
        assert(d.take(to - from) =~= d);
        assert(all_digits(d));
    }
    Some(acc)
}

/// Splits a pages address `/item_id/file_index/page_index` into its parts.
/// A malformed address is reported with a message rather than a panic.
pub fn parse_pages_uri(uri: &str) -> (r: Result<(String, usize, usize), String>)
    ensures
        match r {
            Ok(parts) => sp_parse_pages_uri(uri@) == Some((parts.0@, parts.1, parts.2)),
            Err(_) => sp_parse_pages_uri(uri@) is None,
        },
{
    let chars = chars_of(uri);
    if chars.len() == 0 || chars[0] != '/' {
        return Err("Invalid URI".to_owned());
    }
    proof {
        lemma_slash_or_end(chars@, 1);
    }
    let a = find_slash(&chars, 1);
    if a >= chars.len() {
        return Err(
            "URI must contain at least library id, file number, and page number".to_owned(),
        );
    }
    proof {
        lemma_slash_or_end(chars@, a + 1);
    }
    let b = find_slash(&chars, a + 1);
    if b >= chars.len() {
        return Err(
            "URI must contain at least library id, file number, and page number".to_owned(),
        );
    }
    proof {
        lemma_slash_or_end(chars@, b + 1);
    }
    let c = find_slash(&chars, b + 1);
    let file_num = match parse_field(&chars, a + 1, b) {
        Some(n) => n,
        None => {
            return Err("File number must be a valid number".to_owned());
        },
    };
    let page_num = match parse_field(&chars, b + 1, c) {
        Some(n) => n,
        None => {
            return Err("Page number must be a valid number".to_owned());
        },
    };
    let mut id_chars: Vec<char> = Vec::new();
    let mut k: usize = 1;
    while k < a
        invariant
            1 <= k <= a,
            a <= chars@.len(),
            id_chars@ == chars@.subrange(1, k as int),
        decreases a - k,
    {
        id_chars.push(chars[k]);
        proof {
            assert(id_chars@ =~= chars@.subrange(1, k + 1));
        }
        k = k + 1;
    }
    proof {
        if a == 1 {
            assert(id_chars@ =~= chars@.subrange(1, 1));
        }
    }
    let id = string_from_chars(&id_chars);
    Ok((id, file_num, page_num))
}

} // verus!
