//! The sidecar record's on-disk text encoding.
//!
//! The format is a canonical, self-delimiting text form: a number is its
//! decimal digits followed by `:`, a string is its character count followed
//! by exactly that many characters, an option is a `0`/`1` tag followed by
//! the payload, and records are field concatenations behind a two-character
//! format header. Every value parses back to itself; the round-trip law for
//! whole records is `lemma_metafile_round_trip`.

use vstd::prelude::*;

verus! {

/// Whether `c` is a decimal digit.
pub open spec fn is_digit_char(c: char) -> bool {
    48 <= c as int <= 57
}

/// The digit character for value `d` (meaningful for `d < 10`).
pub open spec fn digit_char(d: nat) -> char {
    ((48 + d) as u8) as char
}

/// The numeric value of a digit character.
pub open spec fn digit_val(c: char) -> nat {
    (c as int - 48) as nat
}

/// The decimal digits of `n`, most significant first.
pub open spec fn dec_digits(n: nat) -> Seq<char>
    decreases n,
{
    if n < 10 {
        seq![digit_char(n)]
    } else {
        dec_digits(n / 10).push(digit_char(n % 10))
    }
}

proof fn lemma_digit_char_val(d: nat)
    requires
        d < 10,
    ensures
        digit_char(d) as int == 48 + d,
        is_digit_char(digit_char(d)),
        digit_val(digit_char(d)) == d,
        digit_char(d) != ':',
{
    assert((48 + d) as u8 == 48 + d);
    assert(((48 + d) as u8) as char as int == 48 + d);
    assert(':' as int == 58);
}

/// Every character of `dec_digits(n)` is a digit, and the run is non-empty.
pub proof fn lemma_dec_digits_are_digits(n: nat)
    ensures
        dec_digits(n).len() >= 1,
        forall|i: int| 0 <= i < dec_digits(n).len() ==> is_digit_char(#[trigger] dec_digits(n)[i]),
    decreases n,
{
    if n < 10 {
        lemma_digit_char_val(n);
    } else {
        lemma_dec_digits_are_digits(n / 10);
        lemma_digit_char_val(n % 10);
    }
}

/// 10 to the `k`.
pub open spec fn pow10(k: nat) -> nat
    decreases k,
{
    if k == 0 {
        1nat
    } else {
        10 * pow10((k - 1) as nat)
    }
}

proof fn lemma_pow10_pos(k: nat)
    ensures
        pow10(k) >= 1,
    decreases k,
{
    if k > 0 {
        lemma_pow10_pos((k - 1) as nat);
    }
}

/// The characters of `e` stand in `s` at position `i`.
pub open spec fn seg_at(s: Seq<char>, i: int, e: Seq<char>) -> bool {
    &&& 0 <= i
    &&& i + e.len() <= s.len()
    &&& forall|j: int| 0 <= j < e.len() ==> s[i + j] == #[trigger] e[j]
}

/// A segment made of two parts splits into a segment per part.
pub proof fn lemma_seg_split(s: Seq<char>, i: int, a: Seq<char>, b: Seq<char>)
    requires
        seg_at(s, i, a + b),
    ensures
        seg_at(s, i, a),
        seg_at(s, i + a.len(), b),
{
    assert forall|j: int| 0 <= j < a.len() implies s[i + j] == #[trigger] a[j] by {
        assert((a + b)[j] == a[j]);
        assert(s[i + j] == (a + b)[j]);
    }
    assert forall|j: int| 0 <= j < b.len() implies s[i + a.len() + j] == #[trigger] b[j] by {
        assert((a + b)[a.len() + j] == b[j]);
        assert(s[i + (a.len() + j)] == (a + b)[a.len() + j]);
    }
}

/// Encoding of a `u64`: decimal digits, then a `:` terminator.
pub open spec fn sp_enc_u64(n: u64) -> Seq<char> {
    dec_digits(n as nat).push(':')
}

/// The scanner for a terminated decimal run, accumulating into a `u64` and
/// refusing overflow. Returns the value and the index after the terminator.
pub open spec fn sp_scan_u64(s: Seq<char>, i: int, acc: u64) -> Option<(u64, int)>
    decreases s.len() - i,
{
    if i < 0 || i >= s.len() {
        None
    } else if s[i] == ':' {
        Some((acc, i + 1))
    } else if is_digit_char(s[i]) {
        let d = digit_val(s[i]) as u64;
        if acc <= (u64::MAX - d) / 10 {
            sp_scan_u64(s, i + 1, (10 * acc + d) as u64)
        } else {
            None
        }
    } else {
        None
    }
}

/// Parsing a `u64` starts the scanner with an empty accumulator.
pub open spec fn sp_parse_u64(s: Seq<char>, i: int) -> Option<(u64, int)> {
    sp_scan_u64(s, i, 0)
}

proof fn lemma_scan_digit_run(s: Seq<char>, i: int, acc: u64, n: nat)
    requires
        0 <= i,
        i + dec_digits(n).len() <= s.len(),
        forall|j: int| 0 <= j < dec_digits(n).len() ==> s[i + j] == #[trigger] dec_digits(n)[j],
        acc * pow10(dec_digits(n).len()) + n <= u64::MAX,
    ensures
        sp_scan_u64(s, i, acc) == sp_scan_u64(
            s,
            i + dec_digits(n).len(),
            (acc * pow10(dec_digits(n).len()) + n) as u64,
        ),
    decreases n,
{
    if n < 10 {
        lemma_digit_char_val(n);
        assert(dec_digits(n).len() == 1);
        assert(s[i] == dec_digits(n)[0]);
        assert(s[i] == digit_char(n));
        let d = n as u64;
        assert(pow10(1) == 10 * pow10(0));
        assert(pow10(1) == 10);
        assert(acc * pow10(1) == 10 * acc) by (nonlinear_arith)
            requires
                pow10(1) == 10,
        ;
        assert(10 * acc + d <= u64::MAX);
        assert(acc <= (u64::MAX - d) / 10) by (nonlinear_arith)
            requires
                10 * acc + d <= u64::MAX,
                0 <= d <= 9,
                acc >= 0,
        ;
        assert(sp_scan_u64(s, i, acc) == sp_scan_u64(s, i + 1, (10 * acc + d) as u64));
    } else {
        let q = n / 10;
        let r = n % 10;
        let kq = dec_digits(q).len();
        assert(q == n / 10 && r == n % 10 && n == 10 * q + r && 0 <= r <= 9) by (nonlinear_arith)
            requires
                q == n / 10,
                r == n % 10,
                n >= 0,
        ;
        assert(dec_digits(n) == dec_digits(q).push(digit_char(r)));
        assert(dec_digits(n).len() == kq + 1);
        assert forall|j: int| 0 <= j < kq implies s[i + j] == #[trigger] dec_digits(q)[j] by {
            assert(dec_digits(n)[j] == dec_digits(q)[j]);
            assert(s[i + j] == dec_digits(n)[j]);
        }
        lemma_pow10_pos(kq);
        assert(pow10((kq + 1) as nat) == 10 * pow10(kq));
        assert(acc * pow10(kq) + q <= u64::MAX) by (nonlinear_arith)
            requires
                acc * (10 * pow10(kq)) + (10 * q + r) <= u64::MAX,
                r >= 0,
                q >= 0,
                acc >= 0,
                pow10(kq) >= 1,
        ;
        lemma_scan_digit_run(s, i, acc, q);
        let mid = (acc * pow10(kq) + q) as u64;
        let j = i + kq;
        assert(s[j] == digit_char(r)) by {
            assert(dec_digits(n)[kq as int] == digit_char(r));
        }
        lemma_digit_char_val(r);
        let d = r as u64;
        assert(10 * mid + d == acc * pow10((kq + 1) as nat) + n) by (nonlinear_arith)
            requires
                mid == acc * pow10(kq) + q,
                pow10((kq + 1) as nat) == 10 * pow10(kq),
                n == 10 * q + r,
                d == r,
        ;
        assert(10 * mid + d <= u64::MAX);
        assert(mid <= (u64::MAX - d) / 10) by (nonlinear_arith)
            requires
                10 * mid + d <= u64::MAX,
                0 <= d <= 9,
                mid >= 0,
        ;
        assert(sp_scan_u64(s, j, mid) == sp_scan_u64(s, j + 1, (10 * mid + d) as u64));
    }
}

/// Parsing right after an encoded `u64` yields that value and steps past the
/// terminator.
pub proof fn lemma_parse_enc_u64(s: Seq<char>, i: int, n: u64)
    requires
        seg_at(s, i, sp_enc_u64(n)),
    ensures
        sp_parse_u64(s, i) == Some((n, i + sp_enc_u64(n).len())),
{
    let k = dec_digits(n as nat).len();
    assert forall|j: int| 0 <= j < k implies s[i + j] == #[trigger] dec_digits(n as nat)[j] by {
        assert(sp_enc_u64(n)[j] == dec_digits(n as nat)[j]);
        assert(s[i + j] == sp_enc_u64(n)[j]);
    }
    lemma_pow10_pos(k);
    assert(0 * pow10(k) + n as nat <= u64::MAX) by (nonlinear_arith)
        requires
            n <= u64::MAX,
            pow10(k) >= 1,
    ;
    lemma_scan_digit_run(s, i, 0, n as nat);
    assert(0 * pow10(k) + n as nat == n as nat) by (nonlinear_arith);
    assert(s[i + k] == ':') by {
        assert(sp_enc_u64(n)[k as int] == ':');
    }
    assert(':' as int == 58);
}

/// Appends the decimal digits of `n` to `out`.
fn push_digits(out: &mut Vec<char>, n: u64)
    ensures
        final(out)@ == old(out)@ + dec_digits(n as nat),
    decreases n,
{
    if n < 10 {
        let c: char = (48u8 + (n as u8)) as char;
        proof {
            assert(c == digit_char(n as nat));
        }
        out.push(c);
        proof {
            assert(out@ =~= old(out)@ + dec_digits(n as nat));
        }
    } else {
        push_digits(out, n / 10);
        let c: char = (48u8 + ((n % 10) as u8)) as char;
        proof {
            assert(c == digit_char((n % 10) as nat));
            assert((n / 10) as nat == (n as nat) / 10 && (n % 10) as nat == (n as nat) % 10);
        }
        out.push(c);
        proof {
            assert(out@ =~= old(out)@ + dec_digits(n as nat));
        }
    }
}

/// Appends the encoding of `n` to `out`.
pub fn enc_u64(out: &mut Vec<char>, n: u64)
    ensures
        final(out)@ == old(out)@ + sp_enc_u64(n),
{
    push_digits(out, n);
    out.push(':');
    proof {
        assert(out@ =~= old(out)@ + sp_enc_u64(n));
    }
}

/// Parses a terminated decimal run starting at `i`.
pub fn parse_u64(s: &Vec<char>, i: usize) -> (r: Option<(u64, usize)>)
    requires
        i <= s@.len(),
    ensures
        match r {
            Some((n, j)) => sp_parse_u64(s@, i as int) == Some((n, j as int)) && i < j <= s@.len(),
            None => sp_parse_u64(s@, i as int) is None,
        },
{
    let mut acc: u64 = 0;
    let mut k: usize = i;
    loop
        invariant
            i <= k <= s@.len(),
            sp_parse_u64(s@, i as int) == sp_scan_u64(s@, k as int, acc),
        decreases s@.len() - k,
    {
        if k >= s.len() {
            return None;
        }
        let c: char = s[k];
        if c == ':' {
            return Some((acc, k + 1));
        }
        if c < '0' || c > '9' {
            proof {
                assert(!is_digit_char(s@[k as int]));
            }
            return None;
        }
        let d: u64 = (c as u64) - 48;
        proof {
            assert(is_digit_char(s@[k as int]));
            assert(digit_val(s@[k as int]) == d);
        }
        if acc > (u64::MAX - d) / 10 {
            return None;
        }
        proof {
            assert(10 * acc + d <= u64::MAX) by (nonlinear_arith)
                requires
                    acc <= (u64::MAX - d) / 10,
                    0 <= d <= 9,
                    acc >= 0,
            ;
        }
        acc = 10 * acc + d;
        k = k + 1;
    }
}

/// Encoding of a string: its character count, then exactly those characters.
pub open spec fn sp_enc_str(v: Seq<char>) -> Seq<char> {
    sp_enc_u64(v.len() as u64) + v
}

/// Parses a counted string starting at `i`.
pub open spec fn sp_parse_str(s: Seq<char>, i: int) -> Option<(Seq<char>, int)> {
    match sp_parse_u64(s, i) {
        Some((n, j)) => if j + n <= s.len() {
            Some((s.subrange(j, j + n as int), j + n as int))
        } else {
            None
        },
        None => None,
    }
}

/// Parsing right after an encoded string yields that string.
pub proof fn lemma_parse_enc_str(s: Seq<char>, i: int, v: Seq<char>)
    requires
        v.len() <= u64::MAX,
        seg_at(s, i, sp_enc_str(v)),
    ensures
        sp_parse_str(s, i) == Some((v, i + sp_enc_str(v).len())),
{
    let n = v.len() as u64;
    let e = sp_enc_u64(n);
    assert forall|j: int| 0 <= j < e.len() implies s[i + j] == #[trigger] e[j] by {
        assert(sp_enc_str(v)[j] == e[j]);
        assert(s[i + j] == sp_enc_str(v)[j]);
    }
    lemma_parse_enc_u64(s, i, n);
    let j = i + e.len();
    assert(j + n <= s.len());
    assert(s.subrange(j, j + n as int) =~= v) by {
        assert forall|k: int| 0 <= k < v.len() implies s[j + k] == v[k] by {
            assert(sp_enc_str(v)[e.len() + k] == v[k]);
            assert(s[i + (e.len() + k)] == sp_enc_str(v)[e.len() + k]);
        }
    }
}

/// Appends the encoding of `v` to `out`.
pub fn enc_str(out: &mut Vec<char>, v: &String)
    ensures
        final(out)@ == old(out)@ + sp_enc_str(v@),
{
    let len: usize = vstd::string::StrSliceExecFns::unicode_len(v.as_str());
    enc_u64(out, len as u64);
    let mut idx: usize = 0;
    while idx < len
        invariant
            idx <= len,
            len == v@.len(),
            out@ == old(out)@ + sp_enc_u64(len as u64) + v@.take(idx as int),
        decreases len - idx,
    {
        out.push(vstd::string::StrSliceExecFns::get_char(v.as_str(), idx));
        proof {
            assert(out@ =~= old(out)@ + sp_enc_u64(len as u64) + v@.take(idx + 1));
        }
        idx = idx + 1;
    }
    proof {
        assert(v@.take(len as int) =~= v@);
        assert(out@ =~= old(out)@ + sp_enc_str(v@));
    }
}

/// Parses a counted string starting at `i`.
pub fn parse_str(s: &Vec<char>, i: usize) -> (r: Option<(String, usize)>)
    requires
        i <= s@.len(),
    ensures
        match r {
            Some((v, j)) => sp_parse_str(s@, i as int) == Some((v@, j as int)) && i < j
                <= s@.len(),
            None => sp_parse_str(s@, i as int) is None,
        },
{
    match parse_u64(s, i) {
        None => None,
        Some((n, j)) => {
            if n > (s.len() - j) as u64 {
                return None;
            }
            let len: usize = n as usize;
            let mut chars: Vec<char> = Vec::new();
            let mut k: usize = 0;
            while k < len
                invariant
                    k <= len,
                    j + len <= s@.len(),
                    s@.len() <= usize::MAX,
                    chars@ == s@.subrange(j as int, j as int + k as int),
                decreases len - k,
            {
                chars.push(s[j + k]);
                proof {
                    assert(chars@ =~= s@.subrange(j as int, j as int + (k + 1)));
                }
                k = k + 1;
            }
            let v = crate::text::string_from_chars(&chars);
            Some((v, j + len))
        },
    }
}

/// Magnitude of a negative `i64`, as a `u64`.
pub open spec fn mag_of_neg(n: i64) -> u64 {
    (-(n as int)) as u64
}

/// The negative `i64` with magnitude `n`.
pub open spec fn neg_val(n: u64) -> i64 {
    (-(n as int)) as i64
}

/// Encoding of an `i64`: an explicit sign, then the magnitude.
pub open spec fn sp_enc_i64(n: i64) -> Seq<char> {
    if n >= 0 {
        seq!['+'] + sp_enc_u64(n as u64)
    } else {
        seq!['-'] + sp_enc_u64(mag_of_neg(n))
    }
}

/// Parses a signed number starting at `i`.
pub open spec fn sp_parse_i64(s: Seq<char>, i: int) -> Option<(i64, int)> {
    if i < 0 || i >= s.len() {
        None
    } else if s[i] == '+' {
        match sp_parse_u64(s, i + 1) {
            Some((n, j)) => if n <= i64::MAX as u64 {
                Some((n as i64, j))
            } else {
                None
            },
            None => None,
        }
    } else if s[i] == '-' {
        match sp_parse_u64(s, i + 1) {
            Some((n, j)) => if 1 <= n <= 9223372036854775808u64 {
                Some((neg_val(n), j))
            } else {
                None
            },
            None => None,
        }
    } else {
        None
    }
}

/// Parsing right after an encoded `i64` yields that value.
pub proof fn lemma_parse_enc_i64(s: Seq<char>, i: int, n: i64)
    requires
        seg_at(s, i, sp_enc_i64(n)),
    ensures
        sp_parse_i64(s, i) == Some((n, i + sp_enc_i64(n).len())),
{
    let m: u64 = if n >= 0 {
        n as u64
    } else {
        mag_of_neg(n)
    };
    let e = sp_enc_u64(m);
    assert(s[i] == sp_enc_i64(n)[0]);
    assert forall|j: int| 0 <= j < e.len() implies s[i + 1 + j] == #[trigger] e[j] by {
        assert(sp_enc_i64(n)[1 + j] == e[j]);
        assert(s[i + (1 + j)] == sp_enc_i64(n)[1 + j]);
    }
    lemma_parse_enc_u64(s, i + 1, m);
    if n >= 0 {
        assert(s[i] == '+');
        assert(m <= i64::MAX as u64);
        assert(m as i64 == n);
    } else {
        assert(s[i] == '-');
        assert('+' as int == 43 && '-' as int == 45);
        assert(1 <= m <= 9223372036854775808u64);
        assert(neg_val(m) == n);
    }
}

/// Appends the encoding of `n` to `out`.
pub fn enc_i64(out: &mut Vec<char>, n: i64)
    ensures
        final(out)@ == old(out)@ + sp_enc_i64(n),
{
    if n >= 0 {
        out.push('+');
        enc_u64(out, n as u64);
        proof {
            assert(out@ =~= old(out)@ + sp_enc_i64(n));
        }
    } else {
        out.push('-');
        let mag: u64 = if n == i64::MIN {
            9223372036854775808u64
        } else {
            (-n) as u64
        };
        proof {
            assert(mag == mag_of_neg(n));
        }
        enc_u64(out, mag);
        proof {
            assert(out@ =~= old(out)@ + sp_enc_i64(n));
        }
    }
}

/// Parses a signed number starting at `i`.
pub fn parse_i64(s: &Vec<char>, i: usize) -> (r: Option<(i64, usize)>)
    requires
        i <= s@.len(),
    ensures
        match r {
            Some((n, j)) => sp_parse_i64(s@, i as int) == Some((n, j as int)) && i < j <= s@.len(),
            None => sp_parse_i64(s@, i as int) is None,
        },
{
    if i >= s.len() {
        return None;
    }
    let c: char = s[i];
    if c == '+' {
        match parse_u64(s, i + 1) {
            Some((n, j)) => {
                if n <= i64::MAX as u64 {
                    Some((n as i64, j))
                } else {
                    None
                }
            },
            None => None,
        }
    } else if c == '-' {
        match parse_u64(s, i + 1) {
            Some((n, j)) => {
                if 1 <= n && n <= 9223372036854775808u64 {
                    let v: i64 = if n == 9223372036854775808u64 {
                        i64::MIN
                    } else {
                        -(n as i64)
                    };
                    proof {
                        assert(v == neg_val(n));
                    }
                    Some((v, j))
                } else {
                    None
                }
            },
            None => None,
        }
    } else {
        None
    }
}

} // verus!
