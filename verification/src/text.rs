//! Character-level string helpers: conversions between `String` and
//! `Vec<char>`, and a verified lexicographic order used to sort file lists.

use vstd::prelude::*;
use vstd::multiset::Multiset;
use vstd::string::StrSliceExecFns;

verus! {

/// Lexicographic order on character sequences, by code point.
pub open spec fn seq_char_le(a: Seq<char>, b: Seq<char>) -> bool
    decreases a.len(),
{
    if a.len() == 0 {
        true
    } else if b.len() == 0 {
        false
    } else if a[0] != b[0] {
        (a[0] as int) < (b[0] as int)
    } else {
        seq_char_le(a.skip(1), b.skip(1))
    }
}

/// `seq_char_le` is total: any two sequences are ordered one way or the other.
pub proof fn lemma_seq_char_le_total(a: Seq<char>, b: Seq<char>)
    ensures
        seq_char_le(a, b) || seq_char_le(b, a),
    decreases a.len(),
{
    if a.len() == 0 || b.len() == 0 {
    } else if a[0] != b[0] {
        assert(a[0] as int != b[0] as int);
    } else {
        lemma_seq_char_le_total(a.skip(1), b.skip(1));
    }
}

proof fn lemma_seq_char_le_step(a: Seq<char>, b: Seq<char>, i: int)
    requires
        0 <= i < a.len(),
        0 <= i < b.len(),
        a[i] == b[i],
    ensures
        seq_char_le(a.skip(i), b.skip(i)) == seq_char_le(a.skip(i + 1), b.skip(i + 1)),
{
    assert(a.skip(i).len() > 0);
    assert(b.skip(i).len() > 0);
    assert(a.skip(i)[0] == a[i]);
    assert(b.skip(i)[0] == b[i]);
    assert(a.skip(i).skip(1) =~= a.skip(i + 1));
    assert(b.skip(i).skip(1) =~= b.skip(i + 1));
}

/// Compares two strings in the order given by `seq_char_le`.
pub fn str_le(a: &String, b: &String) -> (r: bool)
    ensures
        r == seq_char_le(a@, b@),
{
    let a_len: usize = a.as_str().unicode_len();
    let b_len: usize = b.as_str().unicode_len();
    let mut i: usize = 0;
    proof {
        assert(a@.skip(0) =~= a@);
        assert(b@.skip(0) =~= b@);
    }
    loop
        invariant
            i <= a_len,
            i <= b_len,
            a_len == a@.len(),
            b_len == b@.len(),
            forall|j: int| 0 <= j < i ==> a@[j] == b@[j],
            seq_char_le(a@, b@) == seq_char_le(a@.skip(i as int), b@.skip(i as int)),
        decreases a_len - i,
    {
        if i == a_len {
            proof {
                assert(a@.skip(i as int).len() == 0);
            }
            return true;
        }
        if i == b_len {
            proof {
                assert(b@.skip(i as int).len() == 0);
                assert(a@.skip(i as int).len() > 0);
            }
            return false;
        }
        let ca = a.as_str().get_char(i);
        let cb = b.as_str().get_char(i);
        if ca != cb {
            proof {
                assert(a@.skip(i as int)[0] == a@[i as int]);
                assert(b@.skip(i as int)[0] == b@[i as int]);
            }
            return (ca as u32) < (cb as u32);
        }
        proof {
            lemma_seq_char_le_step(a@, b@, i as int);
        }
        i = i + 1;
    }
}

/// Collects the characters of a string slice into a vector.
pub fn chars_of(s: &str) -> (r: Vec<char>)
    ensures
        r@ == s@,
{
    let len: usize = s.unicode_len();
    let mut r: Vec<char> = Vec::new();
    let mut i: usize = 0;
    while i < len
        invariant
            i <= len,
            len == s@.len(),
            r@ == s@.take(i as int),
        decreases len - i,
    {
        r.push(s.get_char(i));
        proof {
            assert(r@ =~= s@.take(i + 1));
        }
        i = i + 1;
    }
    proof {
        assert(s@.take(len as int) =~= s@);
    }
    r
}

/// Relies on `String::push`: appends the given character to the end of the
/// string.
#[verifier::external_body]
fn push_char(s: &mut String, c: char)
    ensures
        final(s)@ == old(s)@.push(c),
{
    s.push(c);
}

/// Compares two string slices character by character.
pub fn str_eq(a: &str, b: &str) -> (r: bool)
    ensures
        r == (a@ == b@),
{
    let a_len: usize = a.unicode_len();
    let b_len: usize = b.unicode_len();
    if a_len != b_len {
        return false;
    }
    let mut i: usize = 0;
    while i < a_len
        invariant
            i <= a_len,
            a_len == a@.len(),
            a_len == b@.len(),
            forall|j: int| 0 <= j < i ==> a@[j] == b@[j],
        decreases a_len - i,
    {
        if a.get_char(i) != b.get_char(i) {
            return false;
        }
        i = i + 1;
    }
    proof {
        assert(a@ =~= b@);
    }
    true
}

/// `s` ends with `suffix`.
pub open spec fn ends_with(s: Seq<char>, suffix: Seq<char>) -> bool {
    s.len() >= suffix.len() && s.subrange(s.len() - suffix.len(), s.len() as int) == suffix
}

/// Tests whether `s` ends with `suffix`.
pub fn str_ends_with(s: &str, suffix: &str) -> (r: bool)
    ensures
        r == ends_with(s@, suffix@),
{
    let s_len: usize = s.unicode_len();
    let suf_len: usize = suffix.unicode_len();
    if s_len < suf_len {
        return false;
    }
    let off: usize = s_len - suf_len;
    let ghost tail = s@.subrange(s@.len() - suffix@.len(), s@.len() as int);
    let mut i: usize = 0;
    while i < suf_len
        invariant
            i <= suf_len,
            s_len == s@.len(),
            suf_len == suffix@.len(),
            off == s_len - suf_len,
            tail == s@.subrange(s@.len() - suffix@.len(), s@.len() as int),
            forall|j: int| 0 <= j < i ==> tail[j] == suffix@[j],
        decreases suf_len - i,
    {
        if s.get_char(off + i) != suffix.get_char(i) {
            proof {
                assert(tail[i as int] == s@[off + i]);
            }
            return false;
        }
        proof {
            assert(tail[i as int] == s@[off + i]);
        }
        i = i + 1;
    }
    proof {
        assert(tail =~= suffix@);
    }
    true
}

/// Index where a path's base name starts: right after the last separator.
pub open spec fn base_start(p: Seq<char>) -> int
    decreases p.len(),
{
    if p.len() == 0 {
        0
    } else if p[p.len() - 1] == '/' {
        p.len() as int
    } else {
        base_start(p.drop_last())
    }
}

/// The base name is within bounds.
pub proof fn lemma_base_start_bounds(p: Seq<char>)
    ensures
        0 <= base_start(p) <= p.len(),
    decreases p.len(),
{
    if p.len() > 0 && p[p.len() - 1] != '/' {
        lemma_base_start_bounds(p.drop_last());
    }
}

/// The last component of a path.
pub open spec fn base_name(p: Seq<char>) -> Seq<char> {
    p.subrange(base_start(p), p.len() as int)
}

/// The directory part of a path: what stands before the last separator.
pub open spec fn dir_name(p: Seq<char>) -> Seq<char> {
    if base_start(p) > 0 {
        p.subrange(0, base_start(p) - 1)
    } else {
        Seq::empty()
    }
}

/// Returns the last component of `p`.
pub fn base_name_of(p: &String) -> (r: String)
    ensures
        r@ == base_name(p@),
{
    let len: usize = p.as_str().unicode_len();
    let mut i: usize = len;
    proof {
        assert(p@.take(len as int) =~= p@);
    }
    while i > 0 && p.as_str().get_char(i - 1) != '/'
        invariant
            i <= len,
            len == p@.len(),
            base_start(p@) == base_start(p@.take(i as int)),
        decreases i,
    {
        proof {
            assert(p@.take(i as int)[i - 1] == p@[i - 1]);
            assert(p@.take(i as int).drop_last() =~= p@.take(i - 1));
        }
        i = i - 1;
    }
    proof {
        lemma_base_start_bounds(p@);
        if i == 0 {
            assert(p@.take(0) =~= Seq::<char>::empty());
            assert(base_start(p@) == 0);
        } else {
            assert(p@.take(i as int)[i - 1] == p@[i - 1]);
            assert(base_start(p@.take(i as int)) == i);
        }
        assert(base_start(p@) == i);
    }
    let r = p.as_str().substring_char(i, len).to_owned();
    r
}

/// Returns the directory part of `p`.
pub fn dir_name_of(p: &String) -> (r: String)
    ensures
        r@ == dir_name(p@),
{
    let len: usize = p.as_str().unicode_len();
    let mut i: usize = len;
    proof {
        assert(p@.take(len as int) =~= p@);
    }
    while i > 0 && p.as_str().get_char(i - 1) != '/'
        invariant
            i <= len,
            len == p@.len(),
            base_start(p@) == base_start(p@.take(i as int)),
        decreases i,
    {
        proof {
            assert(p@.take(i as int)[i - 1] == p@[i - 1]);
            assert(p@.take(i as int).drop_last() =~= p@.take(i - 1));
        }
        i = i - 1;
    }
    proof {
        lemma_base_start_bounds(p@);
        if i == 0 {
            assert(p@.take(0) =~= Seq::<char>::empty());
            assert(base_start(p@) == 0);
        } else {
            assert(p@.take(i as int)[i - 1] == p@[i - 1]);
            assert(base_start(p@.take(i as int)) == i);
        }
        assert(base_start(p@) == i);
    }
    if i == 0 {
        let r = String::new();
        proof {
            assert(r@ =~= dir_name(p@));
        }
        r
    } else {
        let r = p.as_str().substring_char(0, i - 1).to_owned();
        r
    }
}

/// A directory path joined with a file name.
pub open spec fn path_join(dir: Seq<char>, name: Seq<char>) -> Seq<char> {
    dir + seq!['/'] + name
}

/// Joins a directory path and a file name with a separator.
pub fn join_path(dir: &String, name: &String) -> (r: String)
    ensures
        r@ == path_join(dir@, name@),
{
    let mut r = dir.clone();
    r.append("/");
    r.append(name.as_str());
    proof {
        reveal_strlit("/");
        assert("/"@ =~= seq!['/']);
        assert(r@ =~= path_join(dir@, name@));
    }
    r
}

/// Insertion of a string into a sorted sequence, before the first element it
/// precedes or equals.
pub open spec fn insert_sorted(x: Seq<char>, s: Seq<Seq<char>>) -> Seq<Seq<char>>
    decreases s.len(),
{
    if s.len() == 0 {
        seq![x]
    } else if seq_char_le(x, s[0]) {
        seq![x] + s
    } else {
        seq![s[0]] + insert_sorted(x, s.drop_first())
    }
}

/// Insertion sort over string sequences, in the order of `seq_char_le`.
pub open spec fn sort_strs(l: Seq<Seq<char>>) -> Seq<Seq<char>>
    decreases l.len(),
{
    if l.len() == 0 {
        l
    } else {
        insert_sorted(l.last(), sort_strs(l.drop_last()))
    }
}

/// Adjacent elements stand in `seq_char_le` order.
pub open spec fn sorted_strs(s: Seq<Seq<char>>) -> bool {
    forall|i: int| 0 <= i < s.len() - 1 ==> seq_char_le(#[trigger] s[i], s[i + 1])
}

/// Inserting at the first position whose element the new one precedes or
/// equals is what `insert_sorted` does.
pub proof fn lemma_insert_sorted_at(x: Seq<char>, s: Seq<Seq<char>>, p: int)
    requires
        0 <= p <= s.len(),
        forall|j: int| 0 <= j < p ==> !seq_char_le(x, #[trigger] s[j]),
        p < s.len() ==> seq_char_le(x, s[p]),
    ensures
        insert_sorted(x, s) == s.take(p) + seq![x] + s.skip(p),
    decreases p,
{
    if p == 0 {
        if s.len() == 0 {
            assert(seq![x] =~= s.take(0) + seq![x] + s.skip(0));
        } else {
            assert(seq![x] + s =~= s.take(0) + seq![x] + s.skip(0));
        }
    } else {
        assert(!seq_char_le(x, s[0]));
        assert(forall|j: int|
            0 <= j < s.drop_first().len() ==> #[trigger] s.drop_first()[j] == s[j + 1]);
        lemma_insert_sorted_at(x, s.drop_first(), p - 1);
        assert(seq![s[0]] + (s.drop_first().take(p - 1) + seq![x] + s.drop_first().skip(p - 1))
            =~= s.take(p) + seq![x] + s.skip(p));
    }
}

/// A sequence starting with `x` and continuing as `s` holds `s`'s strings
/// plus `x`.
proof fn lemma_multiset_cons(r: Seq<Seq<char>>, s: Seq<Seq<char>>, x: Seq<char>)
    requires
        r.len() == s.len() + 1,
        r[0] == x,
        r.remove(0) == s,
    ensures
        r.to_multiset() == s.to_multiset().insert(x),
{
    broadcast use vstd::seq_lib::group_to_multiset_ensures;

    assert(r.remove(0).to_multiset() =~= r.to_multiset().remove(r[0]));
    assert(r.contains(x));
    assert(r.to_multiset().count(x) > 0);
    assert(r.to_multiset() =~= s.to_multiset().insert(x));
}

/// Insertion keeps a sequence sorted and adds the element to its contents.
pub proof fn lemma_insert_sorted_props(x: Seq<char>, s: Seq<Seq<char>>)
    requires
        sorted_strs(s),
    ensures
        sorted_strs(insert_sorted(x, s)),
        insert_sorted(x, s).len() == s.len() + 1,
        insert_sorted(x, s).to_multiset() == s.to_multiset().insert(x),
        insert_sorted(x, s)[0] == x || (s.len() > 0 && insert_sorted(x, s)[0] == s[0]),
    decreases s.len(),
{
    let r = insert_sorted(x, s);
    if s.len() == 0 {
        assert(r.remove(0) =~= s);
        lemma_multiset_cons(r, s, x);
    } else if seq_char_le(x, s[0]) {
        assert(r == seq![x] + s);
        assert(r[0] == x);
        assert(forall|j: int| 0 <= j < s.len() ==> #[trigger] r[j + 1] == s[j]);
        assert(sorted_strs(r));
        assert(r.remove(0) =~= s);
        lemma_multiset_cons(r, s, x);
    } else {
        let d = s.drop_first();
        assert(forall|j: int| 0 <= j < d.len() ==> #[trigger] d[j] == s[j + 1]);
        assert(sorted_strs(d));
        lemma_insert_sorted_props(x, d);
        let rd = insert_sorted(x, d);
        assert(r == seq![s[0]] + rd);
        assert(r[0] == s[0]);
        assert(forall|j: int| 0 <= j < rd.len() ==> #[trigger] r[j + 1] == rd[j]);
        // the first adjacent pair
        if rd[0] == x {
            lemma_seq_char_le_total(x, s[0]);
            assert(seq_char_le(s[0], x));
        } else {
            assert(d.len() > 0 && rd[0] == d[0]);
            assert(seq_char_le(s[0], s[1]));
        }
        assert(sorted_strs(r));
        assert(r.remove(0) =~= rd);
        lemma_multiset_cons(r, rd, s[0]);
        assert(s.remove(0) =~= d);
        lemma_multiset_cons(s, d, s[0]);
        assert(r.to_multiset() == d.to_multiset().insert(x).insert(s[0]));
        assert(d.to_multiset().insert(x).insert(s[0]) =~= d.to_multiset().insert(s[0]).insert(x));
    }
}

/// The sort's output is sorted and holds exactly the input's strings.
pub proof fn lemma_sort_strs_props(l: Seq<Seq<char>>)
    ensures
        sorted_strs(sort_strs(l)),
        sort_strs(l).len() == l.len(),
        sort_strs(l).to_multiset() == l.to_multiset(),
    decreases l.len(),
{
    broadcast use vstd::seq_lib::group_to_multiset_ensures;

    if l.len() > 0 {
        lemma_sort_strs_props(l.drop_last());
        lemma_insert_sorted_props(l.last(), sort_strs(l.drop_last()));
        assert(l.drop_last().push(l.last()) =~= l);
        assert(l.drop_last().push(l.last()).to_multiset() == l.drop_last().to_multiset().insert(
            l.last(),
        ));
    }
}

/// Builds a string whose characters are exactly those of `v`.
pub fn string_from_chars(v: &Vec<char>) -> (r: String)
    ensures
        r@ == v@,
{
    let mut r = String::new();
    let mut i: usize = 0;
    while i < v.len()
        invariant
            i <= v@.len(),
            r@ == v@.take(i as int),
        decreases v@.len() - i,
    {
        push_char(&mut r, v[i]);
        proof {
            assert(r@ =~= v@.take(i + 1));
        }
        i = i + 1;
    }
    proof {
        assert(v@.take(v@.len() as int) =~= v@);
    }
    r
}

} // verus!
