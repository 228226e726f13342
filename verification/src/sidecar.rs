//! Encoding and parsing of whole sidecar records, built from the primitives
//! in `codec`. The decoder accepts exactly the canonical form the encoder
//! produces and checks the record's invariant (distinct progress filenames);
//! `lemma_metafile_round_trip` is the round-trip law.

use vstd::prelude::*;
use crate::assoc::distinct_keys;
use crate::codec::{
    lemma_parse_enc_i64, lemma_parse_enc_str, lemma_parse_enc_u64, lemma_seg_split, seg_at,
    sp_enc_i64, sp_enc_str, sp_enc_u64, sp_parse_i64, sp_parse_str, sp_parse_u64,
};
use crate::codec::{enc_i64, enc_str, enc_u64, parse_i64, parse_str, parse_u64};
use crate::metafile::{
    view_opt_str, view_opt_str_vec, view_str_vec, LibraryEntrySettings, LibraryEntrySettingsV,
    Metadata, MetadataV, Metafile, MetafileV, ProgressMap, Provider, ReaderLayout, ReaderSettings,
    ReaderSettingsV, ReadingProgress, SourceMeta, SourceMetaV,
};

verus! {

// ---------------------------------------------------------------------------
// Provider and layout tags
// ---------------------------------------------------------------------------

/// Encoding of a provider tag: one character.
pub open spec fn sp_enc_provider(p: Provider) -> Seq<char> {
    match p {
        Provider::Nyaa => seq!['n'],
    }
}

/// Parses a provider tag.
pub open spec fn sp_parse_provider(s: Seq<char>, i: int) -> Option<(Provider, int)> {
    if 0 <= i < s.len() && s[i] == 'n' {
        Some((Provider::Nyaa, i + 1))
    } else {
        None
    }
}

proof fn lemma_parse_enc_provider(s: Seq<char>, i: int, p: Provider)
    requires
        seg_at(s, i, sp_enc_provider(p)),
    ensures
        sp_parse_provider(s, i) == Some((p, i + sp_enc_provider(p).len())),
{
    assert(s[i + 0] == sp_enc_provider(p)[0]);
}

fn enc_provider(out: &mut Vec<char>, p: &Provider)
    ensures
        final(out)@ == old(out)@ + sp_enc_provider(*p),
{
    match p {
        Provider::Nyaa => out.push('n'),
    }
    proof {
        assert(out@ =~= old(out)@ + sp_enc_provider(*p));
    }
}

fn parse_provider(s: &Vec<char>, i: usize) -> (r: Option<(Provider, usize)>)
    requires
        i <= s@.len(),
    ensures
        match r {
            Some((p, j)) => sp_parse_provider(s@, i as int) == Some((p, j as int)) && i < j
                <= s@.len(),
            None => sp_parse_provider(s@, i as int) is None,
        },
{
    if i < s.len() && s[i] == 'n' {
        Some((Provider::Nyaa, i + 1))
    } else {
        None
    }
}

/// Encoding of a reader layout: one character.
pub open spec fn sp_enc_layout(l: ReaderLayout) -> Seq<char> {
    match l {
        ReaderLayout::LongStrip => seq!['l'],
        ReaderLayout::SinglePage => seq!['s'],
        ReaderLayout::DoublePage => seq!['d'],
    }
}

/// Parses a reader layout.
pub open spec fn sp_parse_layout(s: Seq<char>, i: int) -> Option<(ReaderLayout, int)> {
    if 0 <= i < s.len() && s[i] == 'l' {
        Some((ReaderLayout::LongStrip, i + 1))
    } else if 0 <= i < s.len() && s[i] == 's' {
        Some((ReaderLayout::SinglePage, i + 1))
    } else if 0 <= i < s.len() && s[i] == 'd' {
        Some((ReaderLayout::DoublePage, i + 1))
    } else {
        None
    }
}

proof fn lemma_parse_enc_layout(s: Seq<char>, i: int, l: ReaderLayout)
    requires
        seg_at(s, i, sp_enc_layout(l)),
    ensures
        sp_parse_layout(s, i) == Some((l, i + sp_enc_layout(l).len())),
{
    assert(s[i + 0] == sp_enc_layout(l)[0]);
}

fn enc_layout(out: &mut Vec<char>, l: &ReaderLayout)
    ensures
        final(out)@ == old(out)@ + sp_enc_layout(*l),
{
    match l {
        ReaderLayout::LongStrip => out.push('l'),
        ReaderLayout::SinglePage => out.push('s'),
        ReaderLayout::DoublePage => out.push('d'),
    }
    proof {
        assert(out@ =~= old(out)@ + sp_enc_layout(*l));
    }
}

fn parse_layout(s: &Vec<char>, i: usize) -> (r: Option<(ReaderLayout, usize)>)
    requires
        i <= s@.len(),
    ensures
        match r {
            Some((l, j)) => sp_parse_layout(s@, i as int) == Some((l, j as int)) && i < j
                <= s@.len(),
            None => sp_parse_layout(s@, i as int) is None,
        },
{
    if i >= s.len() {
        return None;
    }
    let c: char = s[i];
    if c == 'l' {
        Some((ReaderLayout::LongStrip, i + 1))
    } else if c == 's' {
        Some((ReaderLayout::SinglePage, i + 1))
    } else if c == 'd' {
        Some((ReaderLayout::DoublePage, i + 1))
    } else {
        None
    }
}

// ---------------------------------------------------------------------------
// Bounded-width numbers
// ---------------------------------------------------------------------------

/// Parses a `u64` and narrows it to `u32`.
pub open spec fn sp_parse_u32(s: Seq<char>, i: int) -> Option<(u32, int)> {
    match sp_parse_u64(s, i) {
        Some((n, j)) => if n <= u32::MAX as u64 {
            Some((n as u32, j))
        } else {
            None
        },
        None => None,
    }
}

proof fn lemma_parse_enc_u32(s: Seq<char>, i: int, n: u32)
    requires
        seg_at(s, i, sp_enc_u64(n as u64)),
    ensures
        sp_parse_u32(s, i) == Some((n, i + sp_enc_u64(n as u64).len())),
{
    lemma_parse_enc_u64(s, i, n as u64);
}

fn parse_u32(s: &Vec<char>, i: usize) -> (r: Option<(u32, usize)>)
    requires
        i <= s@.len(),
    ensures
        match r {
            Some((n, j)) => sp_parse_u32(s@, i as int) == Some((n, j as int)) && i < j <= s@.len(),
            None => sp_parse_u32(s@, i as int) is None,
        },
{
    match parse_u64(s, i) {
        Some((n, j)) => {
            if n <= u32::MAX as u64 {
                Some((n as u32, j))
            } else {
                None
            }
        },
        None => None,
    }
}

/// Parses a `u64` and narrows it to `usize`.
pub open spec fn sp_parse_usize(s: Seq<char>, i: int) -> Option<(usize, int)> {
    match sp_parse_u64(s, i) {
        Some((n, j)) => if n <= usize::MAX as u64 {
            Some((n as usize, j))
        } else {
            None
        },
        None => None,
    }
}

proof fn lemma_parse_enc_usize(s: Seq<char>, i: int, n: usize)
    requires
        seg_at(s, i, sp_enc_u64(n as u64)),
    ensures
        sp_parse_usize(s, i) == Some((n, i + sp_enc_u64(n as u64).len())),
{
    lemma_parse_enc_u64(s, i, n as u64);
}

fn parse_usize(s: &Vec<char>, i: usize) -> (r: Option<(usize, usize)>)
    requires
        i <= s@.len(),
    ensures
        match r {
            Some((n, j)) => sp_parse_usize(s@, i as int) == Some((n, j as int)) && i < j
                <= s@.len(),
            None => sp_parse_usize(s@, i as int) is None,
        },
{
    match parse_u64(s, i) {
        Some((n, j)) => {
            if n <= usize::MAX as u64 {
                Some((n as usize, j))
            } else {
                None
            }
        },
        None => None,
    }
}

// ---------------------------------------------------------------------------
// Options
// ---------------------------------------------------------------------------

/// Encoding of an optional string: a `0`/`1` tag, then the payload.
pub open spec fn sp_enc_opt_str(o: Option<Seq<char>>) -> Seq<char> {
    match o {
        None => seq!['0'],
        Some(v) => seq!['1'] + sp_enc_str(v),
    }
}

/// Parses an optional string.
pub open spec fn sp_parse_opt_str(s: Seq<char>, i: int) -> Option<(Option<Seq<char>>, int)> {
    if 0 <= i < s.len() && s[i] == '0' {
        Some((None, i + 1))
    } else if 0 <= i < s.len() && s[i] == '1' {
        match sp_parse_str(s, i + 1) {
            Some((v, j)) => Some((Some(v), j)),
            None => None,
        }
    } else {
        None
    }
}

proof fn lemma_parse_enc_opt_str(s: Seq<char>, i: int, o: Option<Seq<char>>)
    requires
        o matches Some(v) ==> v.len() <= u64::MAX,
        seg_at(s, i, sp_enc_opt_str(o)),
    ensures
        sp_parse_opt_str(s, i) == Some((o, i + sp_enc_opt_str(o).len())),
{
    match o {
        None => {
            assert(s[i + 0] == sp_enc_opt_str(o)[0]);
        },
        Some(v) => {
            lemma_seg_split(s, i, seq!['1'], sp_enc_str(v));
            assert(s[i + 0] == sp_enc_opt_str(o)[0]);
            lemma_parse_enc_str(s, i + 1, v);
        },
    }
}

fn enc_opt_str(out: &mut Vec<char>, o: &Option<String>)
    ensures
        final(out)@ == old(out)@ + sp_enc_opt_str(view_opt_str(*o)),
{
    match o {
        None => {
            out.push('0');
        },
        Some(v) => {
            out.push('1');
            enc_str(out, v);
        },
    }
    proof {
        assert(out@ =~= old(out)@ + sp_enc_opt_str(view_opt_str(*o)));
    }
}

fn parse_opt_str(s: &Vec<char>, i: usize) -> (r: Option<(Option<String>, usize)>)
    requires
        i <= s@.len(),
    ensures
        match r {
            Some((o, j)) => sp_parse_opt_str(s@, i as int) == Some((view_opt_str(o), j as int))
                && i < j <= s@.len(),
            None => sp_parse_opt_str(s@, i as int) is None,
        },
{
    if i >= s.len() {
        return None;
    }
    let c: char = s[i];
    if c == '0' {
        Some((None, i + 1))
    } else if c == '1' {
        match parse_str(s, i + 1) {
            Some((v, j)) => Some((Some(v), j)),
            None => None,
        }
    } else {
        None
    }
}

/// Encoding of an optional `u32`.
pub open spec fn sp_enc_opt_u32(o: Option<u32>) -> Seq<char> {
    match o {
        None => seq!['0'],
        Some(v) => seq!['1'] + sp_enc_u64(v as u64),
    }
}

/// Parses an optional `u32`.
pub open spec fn sp_parse_opt_u32(s: Seq<char>, i: int) -> Option<(Option<u32>, int)> {
    if 0 <= i < s.len() && s[i] == '0' {
        Some((None, i + 1))
    } else if 0 <= i < s.len() && s[i] == '1' {
        match sp_parse_u32(s, i + 1) {
            Some((v, j)) => Some((Some(v), j)),
            None => None,
        }
    } else {
        None
    }
}

proof fn lemma_parse_enc_opt_u32(s: Seq<char>, i: int, o: Option<u32>)
    requires
        seg_at(s, i, sp_enc_opt_u32(o)),
    ensures
        sp_parse_opt_u32(s, i) == Some((o, i + sp_enc_opt_u32(o).len())),
{
    match o {
        None => {
            assert(s[i + 0] == sp_enc_opt_u32(o)[0]);
        },
        Some(v) => {
            lemma_seg_split(s, i, seq!['1'], sp_enc_u64(v as u64));
            assert(s[i + 0] == sp_enc_opt_u32(o)[0]);
            lemma_parse_enc_u32(s, i + 1, v);
        },
    }
}

fn enc_opt_u32(out: &mut Vec<char>, o: &Option<u32>)
    ensures
        final(out)@ == old(out)@ + sp_enc_opt_u32(*o),
{
    match o {
        None => {
            out.push('0');
        },
        Some(v) => {
            out.push('1');
            enc_u64(out, *v as u64);
        },
    }
    proof {
        assert(out@ =~= old(out)@ + sp_enc_opt_u32(*o));
    }
}

fn parse_opt_u32(s: &Vec<char>, i: usize) -> (r: Option<(Option<u32>, usize)>)
    requires
        i <= s@.len(),
    ensures
        match r {
            Some((o, j)) => sp_parse_opt_u32(s@, i as int) == Some((o, j as int)) && i < j
                <= s@.len(),
            None => sp_parse_opt_u32(s@, i as int) is None,
        },
{
    if i >= s.len() {
        return None;
    }
    let c: char = s[i];
    if c == '0' {
        Some((None, i + 1))
    } else if c == '1' {
        match parse_u32(s, i + 1) {
            Some((v, j)) => Some((Some(v), j)),
            None => None,
        }
    } else {
        None
    }
}

/// Encoding of an optional `i64`.
pub open spec fn sp_enc_opt_i64(o: Option<i64>) -> Seq<char> {
    match o {
        None => seq!['0'],
        Some(v) => seq!['1'] + sp_enc_i64(v),
    }
}

/// Parses an optional `i64`.
pub open spec fn sp_parse_opt_i64(s: Seq<char>, i: int) -> Option<(Option<i64>, int)> {
    if 0 <= i < s.len() && s[i] == '0' {
        Some((None, i + 1))
    } else if 0 <= i < s.len() && s[i] == '1' {
        match sp_parse_i64(s, i + 1) {
            Some((v, j)) => Some((Some(v), j)),
            None => None,
        }
    } else {
        None
    }
}

proof fn lemma_parse_enc_opt_i64(s: Seq<char>, i: int, o: Option<i64>)
    requires
        seg_at(s, i, sp_enc_opt_i64(o)),
    ensures
        sp_parse_opt_i64(s, i) == Some((o, i + sp_enc_opt_i64(o).len())),
{
    match o {
        None => {
            assert(s[i + 0] == sp_enc_opt_i64(o)[0]);
        },
        Some(v) => {
            lemma_seg_split(s, i, seq!['1'], sp_enc_i64(v));
            assert(s[i + 0] == sp_enc_opt_i64(o)[0]);
            lemma_parse_enc_i64(s, i + 1, v);
        },
    }
}

fn enc_opt_i64(out: &mut Vec<char>, o: &Option<i64>)
    ensures
        final(out)@ == old(out)@ + sp_enc_opt_i64(*o),
{
    match o {
        None => {
            out.push('0');
        },
        Some(v) => {
            out.push('1');
            enc_i64(out, *v);
        },
    }
    proof {
        assert(out@ =~= old(out)@ + sp_enc_opt_i64(*o));
    }
}

fn parse_opt_i64(s: &Vec<char>, i: usize) -> (r: Option<(Option<i64>, usize)>)
    requires
        i <= s@.len(),
    ensures
        match r {
            Some((o, j)) => sp_parse_opt_i64(s@, i as int) == Some((o, j as int)) && i < j
                <= s@.len(),
            None => sp_parse_opt_i64(s@, i as int) is None,
        },
{
    if i >= s.len() {
        return None;
    }
    let c: char = s[i];
    if c == '0' {
        Some((None, i + 1))
    } else if c == '1' {
        match parse_i64(s, i + 1) {
            Some((v, j)) => Some((Some(v), j)),
            None => None,
        }
    } else {
        None
    }
}

/// Encoding of an optional reader layout.
pub open spec fn sp_enc_opt_layout(o: Option<ReaderLayout>) -> Seq<char> {
    match o {
        None => seq!['0'],
        Some(l) => seq!['1'] + sp_enc_layout(l),
    }
}

/// Parses an optional reader layout.
pub open spec fn sp_parse_opt_layout(s: Seq<char>, i: int) -> Option<(Option<ReaderLayout>, int)> {
    if 0 <= i < s.len() && s[i] == '0' {
        Some((None, i + 1))
    } else if 0 <= i < s.len() && s[i] == '1' {
        match sp_parse_layout(s, i + 1) {
            Some((l, j)) => Some((Some(l), j)),
            None => None,
        }
    } else {
        None
    }
}

proof fn lemma_parse_enc_opt_layout(s: Seq<char>, i: int, o: Option<ReaderLayout>)
    requires
        seg_at(s, i, sp_enc_opt_layout(o)),
    ensures
        sp_parse_opt_layout(s, i) == Some((o, i + sp_enc_opt_layout(o).len())),
{
    match o {
        None => {
            assert(s[i + 0] == sp_enc_opt_layout(o)[0]);
        },
        Some(l) => {
            lemma_seg_split(s, i, seq!['1'], sp_enc_layout(l));
            assert(s[i + 0] == sp_enc_opt_layout(o)[0]);
            lemma_parse_enc_layout(s, i + 1, l);
        },
    }
}

fn enc_opt_layout(out: &mut Vec<char>, o: &Option<ReaderLayout>)
    ensures
        final(out)@ == old(out)@ + sp_enc_opt_layout(*o),
{
    match o {
        None => {
            out.push('0');
        },
        Some(l) => {
            out.push('1');
            enc_layout(out, l);
        },
    }
    proof {
        assert(out@ =~= old(out)@ + sp_enc_opt_layout(*o));
    }
}

fn parse_opt_layout(s: &Vec<char>, i: usize) -> (r: Option<(Option<ReaderLayout>, usize)>)
    requires
        i <= s@.len(),
    ensures
        match r {
            Some((o, j)) => sp_parse_opt_layout(s@, i as int) == Some((o, j as int)) && i < j
                <= s@.len(),
            None => sp_parse_opt_layout(s@, i as int) is None,
        },
{
    if i >= s.len() {
        return None;
    }
    let c: char = s[i];
    if c == '0' {
        Some((None, i + 1))
    } else if c == '1' {
        match parse_layout(s, i + 1) {
            Some((l, j)) => Some((Some(l), j)),
            None => None,
        }
    } else {
        None
    }
}

// ---------------------------------------------------------------------------
// String lists
// ---------------------------------------------------------------------------

/// Every string and the count itself fit in a `u64`.
pub open spec fn str_list_bounded(l: Seq<Seq<char>>) -> bool {
    &&& l.len() <= u64::MAX
    &&& forall|i: int| 0 <= i < l.len() ==> #[trigger] l[i].len() <= u64::MAX
}

/// Encoding of the items of a string list, in order.
pub open spec fn sp_enc_str_items(l: Seq<Seq<char>>) -> Seq<char>
    decreases l.len(),
{
    if l.len() == 0 {
        Seq::empty()
    } else {
        sp_enc_str(l[0]) + sp_enc_str_items(l.drop_first())
    }
}

/// Encoding of a string list: its count, then its items.
pub open spec fn sp_enc_str_list(l: Seq<Seq<char>>) -> Seq<char> {
    sp_enc_u64(l.len() as u64) + sp_enc_str_items(l)
}

/// Parses `n` consecutive strings.
pub open spec fn sp_parse_str_items(s: Seq<char>, i: int, n: u64) -> Option<(Seq<Seq<char>>, int)>
    decreases n,
{
    if n == 0 {
        Some((Seq::empty(), i))
    } else {
        match sp_parse_str(s, i) {
            Some((v, j)) => match sp_parse_str_items(s, j, (n - 1) as u64) {
                Some((vs, k)) => Some((seq![v] + vs, k)),
                None => None,
            },
            None => None,
        }
    }
}

/// Parses a counted string list.
pub open spec fn sp_parse_str_list(s: Seq<char>, i: int) -> Option<(Seq<Seq<char>>, int)> {
    match sp_parse_u64(s, i) {
        Some((n, j)) => sp_parse_str_items(s, j, n),
        None => None,
    }
}

/// Appending one item extends the items' encoding at the end.
proof fn lemma_enc_str_items_push(l: Seq<Seq<char>>, x: Seq<char>)
    ensures
        sp_enc_str_items(l.push(x)) == sp_enc_str_items(l) + sp_enc_str(x),
    decreases l.len(),
{
    assert(l.push(x).len() == l.len() + 1);
    if l.len() == 0 {
        assert(l.push(x)[0] == x);
        assert(l.push(x).drop_first() =~= Seq::<Seq<char>>::empty());
        assert(sp_enc_str_items(l.push(x).drop_first()) == Seq::<char>::empty());
        assert(sp_enc_str_items(l) == Seq::<char>::empty());
        assert(sp_enc_str_items(l.push(x)) == sp_enc_str(x) + Seq::<char>::empty());
        assert(sp_enc_str_items(l.push(x)) =~= sp_enc_str_items(l) + sp_enc_str(x));
    } else {
        assert(l.push(x).drop_first() =~= l.drop_first().push(x));
        assert(l.push(x)[0] == l[0]);
        lemma_enc_str_items_push(l.drop_first(), x);
        assert(sp_enc_str_items(l.push(x).drop_first()) == sp_enc_str_items(l.drop_first())
            + sp_enc_str(x));
        assert(sp_enc_str_items(l.push(x)) == sp_enc_str(l[0]) + (sp_enc_str_items(l.drop_first())
            + sp_enc_str(x)));
        assert(sp_enc_str_items(l) == sp_enc_str(l[0]) + sp_enc_str_items(l.drop_first()));
        assert(sp_enc_str_items(l.push(x)) =~= sp_enc_str_items(l) + sp_enc_str(x));
    }
}

proof fn lemma_parse_enc_str_items(s: Seq<char>, i: int, l: Seq<Seq<char>>)
    requires
        str_list_bounded(l),
        seg_at(s, i, sp_enc_str_items(l)),
    ensures
        sp_parse_str_items(s, i, l.len() as u64) == Some((l, i + sp_enc_str_items(l).len())),
    decreases l.len(),
{
    if l.len() == 0 {
        assert(l =~= Seq::<Seq<char>>::empty());
    } else {
        lemma_seg_split(s, i, sp_enc_str(l[0]), sp_enc_str_items(l.drop_first()));
        lemma_parse_enc_str(s, i, l[0]);
        let j = i + sp_enc_str(l[0]).len();
        assert(str_list_bounded(l.drop_first())) by {
            assert(forall|k: int|
                0 <= k < l.drop_first().len() ==> #[trigger] l.drop_first()[k] == l[k + 1]);
        }
        lemma_parse_enc_str_items(s, j, l.drop_first());
        assert(seq![l[0]] + l.drop_first() =~= l);
        assert((l.len() as u64 - 1) as u64 == l.drop_first().len() as u64);
    }
}

proof fn lemma_parse_enc_str_list(s: Seq<char>, i: int, l: Seq<Seq<char>>)
    requires
        str_list_bounded(l),
        seg_at(s, i, sp_enc_str_list(l)),
    ensures
        sp_parse_str_list(s, i) == Some((l, i + sp_enc_str_list(l).len())),
{
    lemma_seg_split(s, i, sp_enc_u64(l.len() as u64), sp_enc_str_items(l));
    lemma_parse_enc_u64(s, i, l.len() as u64);
    lemma_parse_enc_str_items(s, i + sp_enc_u64(l.len() as u64).len(), l);
}

fn enc_str_list(out: &mut Vec<char>, l: &Vec<String>)
    ensures
        final(out)@ == old(out)@ + sp_enc_str_list(view_str_vec(*l)),
{
    enc_u64(out, l.len() as u64);
    let mut idx: usize = 0;
    while idx < l.len()
        invariant
            idx <= l@.len(),
            out@ == old(out)@ + sp_enc_u64(l@.len() as u64) + sp_enc_str_items(
                view_str_vec(*l).take(idx as int),
            ),
        decreases l@.len() - idx,
    {
        proof {
            lemma_enc_str_items_push(view_str_vec(*l).take(idx as int), l@[idx as int]@);
            assert(view_str_vec(*l).take(idx as int).push(l@[idx as int]@) =~= view_str_vec(
                *l,
            ).take(idx + 1));
        }
        enc_str(out, &l[idx]);
        proof {
            assert(out@ =~= old(out)@ + sp_enc_u64(l@.len() as u64) + sp_enc_str_items(
                view_str_vec(*l).take(idx + 1),
            ));
        }
        idx = idx + 1;
    }
    proof {
        assert(view_str_vec(*l).take(l@.len() as int) =~= view_str_vec(*l));
        assert(view_str_vec(*l).len() == l@.len());
        assert(out@ =~= old(out)@ + sp_enc_str_list(view_str_vec(*l)));
    }
}

fn parse_str_list(s: &Vec<char>, i: usize) -> (r: Option<(Vec<String>, usize)>)
    requires
        i <= s@.len(),
    ensures
        match r {
            Some((l, j)) => sp_parse_str_list(s@, i as int) == Some(
                (view_str_vec(l), j as int),
            ) && i < j <= s@.len(),
            None => sp_parse_str_list(s@, i as int) is None,
        },
{
    let parsed = parse_u64(s, i);
    match parsed {
        None => None,
        Some((n, start)) => {
            let mut acc: Vec<String> = Vec::new();
            let mut k: usize = start;
            let mut rem: u64 = n;
            loop
                invariant
                    i < k <= s@.len(),
                    sp_parse_u64(s@, i as int) == Some((n, start as int)),
                    match sp_parse_str_items(s@, k as int, rem) {
                        Some((vs, end)) => sp_parse_str_list(s@, i as int) == Some(
                            (view_str_vec(acc) + vs, end),
                        ),
                        None => sp_parse_str_list(s@, i as int) is None,
                    },
                decreases rem,
            {
                if rem == 0 {
                    proof {
                        assert(view_str_vec(acc) + Seq::<Seq<char>>::empty() =~= view_str_vec(
                            acc,
                        ));
                    }
                    return Some((acc, k));
                }
                let parsed_item = parse_str(s, k);
                match parsed_item {
                    Some((v, k2)) => {
                        proof {
                            let ghost acc_view = view_str_vec(acc);
                            let ghost v_view = v@;
                            match sp_parse_str_items(s@, k2 as int, (rem - 1) as u64) {
                                Some((vs, end)) => {
                                    assert(acc_view + (seq![v_view] + vs) =~= acc_view.push(
                                        v_view,
                                    ) + vs);
                                },
                                None => {},
                            }
                        }
                        let ghost acc_before = acc;
                        acc.push(v);
                        proof {
                            assert(view_str_vec(acc) =~= view_str_vec(acc_before).push(v@));
                        }
                        k = k2;
                        rem = rem - 1;
                    },
                    None => {
                        return None;
                    },
                }
            }
        },
    }
}

/// Encoding of an optional string list.
pub open spec fn sp_enc_opt_str_list(o: Option<Seq<Seq<char>>>) -> Seq<char> {
    match o {
        None => seq!['0'],
        Some(l) => seq!['1'] + sp_enc_str_list(l),
    }
}

/// Parses an optional string list.
pub open spec fn sp_parse_opt_str_list(s: Seq<char>, i: int) -> Option<
    (Option<Seq<Seq<char>>>, int),
> {
    if 0 <= i < s.len() && s[i] == '0' {
        Some((None, i + 1))
    } else if 0 <= i < s.len() && s[i] == '1' {
        match sp_parse_str_list(s, i + 1) {
            Some((l, j)) => Some((Some(l), j)),
            None => None,
        }
    } else {
        None
    }
}

proof fn lemma_parse_enc_opt_str_list(s: Seq<char>, i: int, o: Option<Seq<Seq<char>>>)
    requires
        o matches Some(l) ==> str_list_bounded(l),
        seg_at(s, i, sp_enc_opt_str_list(o)),
    ensures
        sp_parse_opt_str_list(s, i) == Some((o, i + sp_enc_opt_str_list(o).len())),
{
    match o {
        None => {
            assert(s[i + 0] == sp_enc_opt_str_list(o)[0]);
        },
        Some(l) => {
            lemma_seg_split(s, i, seq!['1'], sp_enc_str_list(l));
            assert(s[i + 0] == sp_enc_opt_str_list(o)[0]);
            lemma_parse_enc_str_list(s, i + 1, l);
        },
    }
}

fn enc_opt_str_list(out: &mut Vec<char>, o: &Option<Vec<String>>)
    ensures
        final(out)@ == old(out)@ + sp_enc_opt_str_list(view_opt_str_vec(*o)),
{
    match o {
        None => {
            out.push('0');
        },
        Some(l) => {
            out.push('1');
            enc_str_list(out, l);
        },
    }
    proof {
        assert(out@ =~= old(out)@ + sp_enc_opt_str_list(view_opt_str_vec(*o)));
    }
}

fn parse_opt_str_list(s: &Vec<char>, i: usize) -> (r: Option<(Option<Vec<String>>, usize)>)
    requires
        i <= s@.len(),
    ensures
        match r {
            Some((o, j)) => sp_parse_opt_str_list(s@, i as int) == Some(
                (view_opt_str_vec(o), j as int),
            ) && i < j <= s@.len(),
            None => sp_parse_opt_str_list(s@, i as int) is None,
        },
{
    if i >= s.len() {
        return None;
    }
    let c: char = s[i];
    if c == '0' {
        Some((None, i + 1))
    } else if c == '1' {
        match parse_str_list(s, i + 1) {
            Some((l, j)) => Some((Some(l), j)),
            None => None,
        }
    } else {
        None
    }
}

// ---------------------------------------------------------------------------
// Reading progress
// ---------------------------------------------------------------------------

/// View of a vector of progress entries.
pub open spec fn view_progress_vec(v: Vec<(String, ReadingProgress)>) -> Seq<
    (Seq<char>, ReadingProgress),
> {
    v@.map_values(|e: (String, ReadingProgress)| (e.0@, e.1))
}

/// Encoding of one progress entry: the filename, then the two page numbers.
pub open spec fn sp_enc_progress_entry(e: (Seq<char>, ReadingProgress)) -> Seq<char> {
    sp_enc_str(e.0) + sp_enc_u64(e.1.current_page as u64) + sp_enc_u64(e.1.total_pages as u64)
}

/// Parses one progress entry.
pub open spec fn sp_parse_progress_entry(s: Seq<char>, i: int) -> Option<
    ((Seq<char>, ReadingProgress), int),
> {
    match sp_parse_str(s, i) {
        Some((name, j)) => match sp_parse_usize(s, j) {
            Some((current, k)) => match sp_parse_usize(s, k) {
                Some((total, m)) => Some(
                    ((name, ReadingProgress { current_page: current, total_pages: total }), m),
                ),
                None => None,
            },
            None => None,
        },
        None => None,
    }
}

proof fn lemma_parse_enc_progress_entry(s: Seq<char>, i: int, e: (Seq<char>, ReadingProgress))
    requires
        e.0.len() <= u64::MAX,
        seg_at(s, i, sp_enc_progress_entry(e)),
    ensures
        sp_parse_progress_entry(s, i) == Some((e, i + sp_enc_progress_entry(e).len())),
{
    let e1 = sp_enc_str(e.0);
    let e2 = sp_enc_u64(e.1.current_page as u64);
    let e3 = sp_enc_u64(e.1.total_pages as u64);
    lemma_seg_split(s, i, e1 + e2, e3);
    lemma_seg_split(s, i, e1, e2);
    lemma_parse_enc_str(s, i, e.0);
    lemma_parse_enc_usize(s, i + e1.len(), e.1.current_page);
    lemma_parse_enc_usize(s, i + e1.len() + e2.len(), e.1.total_pages);
}

/// Encoding of the entries of a progress record, in order.
pub open spec fn sp_enc_progress_items(l: Seq<(Seq<char>, ReadingProgress)>) -> Seq<char>
    decreases l.len(),
{
    if l.len() == 0 {
        Seq::empty()
    } else {
        sp_enc_progress_entry(l[0]) + sp_enc_progress_items(l.drop_first())
    }
}

/// Encoding of a progress record: its count, then its entries.
pub open spec fn sp_enc_progress_list(l: Seq<(Seq<char>, ReadingProgress)>) -> Seq<char> {
    sp_enc_u64(l.len() as u64) + sp_enc_progress_items(l)
}

/// Parses `n` consecutive progress entries.
pub open spec fn sp_parse_progress_items(s: Seq<char>, i: int, n: u64) -> Option<
    (Seq<(Seq<char>, ReadingProgress)>, int),
>
    decreases n,
{
    if n == 0 {
        Some((Seq::empty(), i))
    } else {
        match sp_parse_progress_entry(s, i) {
            Some((e, j)) => match sp_parse_progress_items(s, j, (n - 1) as u64) {
                Some((es, k)) => Some((seq![e] + es, k)),
                None => None,
            },
            None => None,
        }
    }
}

/// Parses a counted progress record and refuses duplicate filenames.
pub open spec fn sp_parse_progress_list(s: Seq<char>, i: int) -> Option<
    (Seq<(Seq<char>, ReadingProgress)>, int),
> {
    match sp_parse_u64(s, i) {
        Some((n, j)) => match sp_parse_progress_items(s, j, n) {
            Some((l, k)) => if distinct_keys(l) {
                Some((l, k))
            } else {
                None
            },
            None => None,
        },
        None => None,
    }
}

/// Filename lengths and the count fit in a `u64`.
pub open spec fn progress_bounded(l: Seq<(Seq<char>, ReadingProgress)>) -> bool {
    &&& l.len() <= u64::MAX
    &&& forall|i: int| 0 <= i < l.len() ==> #[trigger] l[i].0.len() <= u64::MAX
}

/// Appending one entry extends the entries' encoding at the end.
proof fn lemma_enc_progress_items_push(l: Seq<(Seq<char>, ReadingProgress)>, x: (Seq<char>, ReadingProgress))
    ensures
        sp_enc_progress_items(l.push(x)) == sp_enc_progress_items(l) + sp_enc_progress_entry(x),
    decreases l.len(),
{
    assert(l.push(x).len() == l.len() + 1);
    if l.len() == 0 {
        assert(l.push(x)[0] == x);
        assert(l.push(x).drop_first() =~= Seq::<(Seq<char>, ReadingProgress)>::empty());
        assert(sp_enc_progress_items(l.push(x).drop_first()) == Seq::<char>::empty());
        assert(sp_enc_progress_items(l) == Seq::<char>::empty());
        assert(sp_enc_progress_items(l.push(x)) == sp_enc_progress_entry(x) + Seq::<char>::empty());
        assert(sp_enc_progress_items(l.push(x)) =~= sp_enc_progress_items(l)
            + sp_enc_progress_entry(x));
    } else {
        assert(l.push(x).drop_first() =~= l.drop_first().push(x));
        assert(l.push(x)[0] == l[0]);
        lemma_enc_progress_items_push(l.drop_first(), x);
        assert(sp_enc_progress_items(l.push(x).drop_first()) == sp_enc_progress_items(
            l.drop_first(),
        ) + sp_enc_progress_entry(x));
        assert(sp_enc_progress_items(l.push(x)) == sp_enc_progress_entry(l[0]) + (
        sp_enc_progress_items(l.drop_first()) + sp_enc_progress_entry(x)));
        assert(sp_enc_progress_items(l) == sp_enc_progress_entry(l[0]) + sp_enc_progress_items(
            l.drop_first(),
        ));
        assert(sp_enc_progress_items(l.push(x)) =~= sp_enc_progress_items(l)
            + sp_enc_progress_entry(x));
    }
}

proof fn lemma_parse_enc_progress_items(s: Seq<char>, i: int, l: Seq<(Seq<char>, ReadingProgress)>)
    requires
        progress_bounded(l),
        seg_at(s, i, sp_enc_progress_items(l)),
    ensures
        sp_parse_progress_items(s, i, l.len() as u64) == Some(
            (l, i + sp_enc_progress_items(l).len()),
        ),
    decreases l.len(),
{
    if l.len() == 0 {
        assert(l =~= Seq::<(Seq<char>, ReadingProgress)>::empty());
    } else {
        lemma_seg_split(s, i, sp_enc_progress_entry(l[0]), sp_enc_progress_items(l.drop_first()));
        lemma_parse_enc_progress_entry(s, i, l[0]);
        let j = i + sp_enc_progress_entry(l[0]).len();
        assert(progress_bounded(l.drop_first())) by {
            assert(forall|k: int|
                0 <= k < l.drop_first().len() ==> #[trigger] l.drop_first()[k] == l[k + 1]);
        }
        lemma_parse_enc_progress_items(s, j, l.drop_first());
        assert(seq![l[0]] + l.drop_first() =~= l);
        assert((l.len() as u64 - 1) as u64 == l.drop_first().len() as u64);
    }
}

proof fn lemma_parse_enc_progress_list(s: Seq<char>, i: int, l: Seq<(Seq<char>, ReadingProgress)>)
    requires
        progress_bounded(l),
        distinct_keys(l),
        seg_at(s, i, sp_enc_progress_list(l)),
    ensures
        sp_parse_progress_list(s, i) == Some((l, i + sp_enc_progress_list(l).len())),
{
    lemma_seg_split(s, i, sp_enc_u64(l.len() as u64), sp_enc_progress_items(l));
    lemma_parse_enc_u64(s, i, l.len() as u64);
    lemma_parse_enc_progress_items(s, i + sp_enc_u64(l.len() as u64).len(), l);
}

fn enc_progress_list(out: &mut Vec<char>, l: &Vec<(String, ReadingProgress)>)
    ensures
        final(out)@ == old(out)@ + sp_enc_progress_list(view_progress_vec(*l)),
{
    enc_u64(out, l.len() as u64);
    let mut idx: usize = 0;
    while idx < l.len()
        invariant
            idx <= l@.len(),
            out@ == old(out)@ + sp_enc_u64(l@.len() as u64) + sp_enc_progress_items(
                view_progress_vec(*l).take(idx as int),
            ),
        decreases l@.len() - idx,
    {
        proof {
            lemma_enc_progress_items_push(
                view_progress_vec(*l).take(idx as int),
                (l@[idx as int].0@, l@[idx as int].1),
            );
            assert(view_progress_vec(*l).take(idx as int).push(
                (l@[idx as int].0@, l@[idx as int].1),
            ) =~= view_progress_vec(*l).take(idx + 1));
        }
        enc_str(out, &l[idx].0);
        enc_u64(out, l[idx].1.current_page as u64);
        enc_u64(out, l[idx].1.total_pages as u64);
        proof {
            assert(out@ =~= old(out)@ + sp_enc_u64(l@.len() as u64) + sp_enc_progress_items(
                view_progress_vec(*l).take(idx + 1),
            ));
        }
        idx = idx + 1;
    }
    proof {
        assert(view_progress_vec(*l).take(l@.len() as int) =~= view_progress_vec(*l));
        assert(view_progress_vec(*l).len() == l@.len());
        assert(out@ =~= old(out)@ + sp_enc_progress_list(view_progress_vec(*l)));
    }
}

/// Whether the filenames in `v` are pairwise distinct.
fn check_distinct(v: &Vec<(String, ReadingProgress)>) -> (r: bool)
    ensures
        r == distinct_keys(view_progress_vec(*v)),
{
    let ghost w = view_progress_vec(*v);
    let mut a: usize = 0;
    while a < v.len()
        invariant
            a <= v@.len(),
            w == view_progress_vec(*v),
            w.len() == v@.len(),
            forall|p: int, q: int| 0 <= p < q < w.len() && p < a ==> w[p].0 != w[q].0,
        decreases v@.len() - a,
    {
        let mut b: usize = a + 1;
        while b < v.len()
            invariant
                a < v@.len(),
                a + 1 <= b <= v@.len(),
                w == view_progress_vec(*v),
                w.len() == v@.len(),
                forall|q: int| a < q < b ==> w[a as int].0 != w[q].0,
            decreases v@.len() - b,
        {
            if v[a].0 == v[b].0 {
                proof {
                    assert(w[a as int].0 == w[b as int].0);
                }
                return false;
            }
            b = b + 1;
        }
        a = a + 1;
    }
    proof {
        assert(distinct_keys(w));
    }
    true
}

fn parse_progress_list(s: &Vec<char>, i: usize) -> (r: Option<(Vec<(String, ReadingProgress)>, usize)>)
    requires
        i <= s@.len(),
    ensures
        match r {
            Some((l, j)) => sp_parse_progress_list(s@, i as int) == Some(
                (view_progress_vec(l), j as int),
            ) && i < j <= s@.len() && distinct_keys(view_progress_vec(l)),
            None => sp_parse_progress_list(s@, i as int) is None,
        },
{
    let parsed = parse_u64(s, i);
    match parsed {
        None => None,
        Some((n, start)) => {
            let mut acc: Vec<(String, ReadingProgress)> = Vec::new();
            let mut k: usize = start;
            let mut rem: u64 = n;
            loop
                invariant
                    i < k <= s@.len(),
                    sp_parse_u64(s@, i as int) == Some((n, start as int)),
                    match sp_parse_progress_items(s@, k as int, rem) {
                        Some((es, end)) => sp_parse_progress_items(s@, start as int, n) == Some(
                            (view_progress_vec(acc) + es, end),
                        ),
                        None => sp_parse_progress_items(s@, start as int, n) is None,
                    },
                decreases rem,
            {
                if rem == 0 {
                    proof {
                        assert(view_progress_vec(acc)
                            + Seq::<(Seq<char>, ReadingProgress)>::empty() =~= view_progress_vec(
                            acc,
                        ));
                    }
                    if check_distinct(&acc) {
                        return Some((acc, k));
                    } else {
                        return None;
                    }
                }
                let parsed_name = parse_str(s, k);
                match parsed_name {
                    None => {
                        return None;
                    },
                    Some((name, k1)) => {
                        let parsed_current = parse_usize(s, k1);
                        match parsed_current {
                            None => {
                                return None;
                            },
                            Some((current, k2)) => {
                                let parsed_total = parse_usize(s, k2);
                                match parsed_total {
                                    None => {
                                        return None;
                                    },
                                    Some((total, k3)) => {
                                        let p = ReadingProgress {
                                            current_page: current,
                                            total_pages: total,
                                        };
                                        proof {
                                            assert(sp_parse_progress_entry(s@, k as int) == Some(
                                                ((name@, p), k3 as int),
                                            ));
                                            let ghost acc_view = view_progress_vec(acc);
                                            match sp_parse_progress_items(
                                                s@,
                                                k3 as int,
                                                (rem - 1) as u64,
                                            ) {
                                                Some((es, end)) => {
                                                    assert(acc_view + (seq![(name@, p)] + es)
                                                        =~= acc_view.push((name@, p)) + es);
                                                },
                                                None => {},
                                            }
                                        }
                                        let ghost acc_before = acc;
                                        let ghost name_view = name@;
                                        acc.push((name, p));
                                        proof {
                                            assert(view_progress_vec(acc) =~= view_progress_vec(
                                                acc_before,
                                            ).push((name_view, p)));
                                        }
                                        k = k3;
                                        rem = rem - 1;
                                    },
                                }
                            },
                        }
                    },
                }
            }
        },
    }
}

// ---------------------------------------------------------------------------
// Source identity
// ---------------------------------------------------------------------------

/// Encoding of a source identity: the item id, then the provider tag.
pub open spec fn sp_enc_source(v: SourceMetaV) -> Seq<char> {
    sp_enc_str(v.id) + sp_enc_provider(v.provider)
}

/// Parses a source identity.
pub open spec fn sp_parse_source(s: Seq<char>, i: int) -> Option<(SourceMetaV, int)> {
    match sp_parse_str(s, i) {
        Some((id, j)) => match sp_parse_provider(s, j) {
            Some((p, k)) => Some((SourceMetaV { id, provider: p }, k)),
            None => None,
        },
        None => None,
    }
}

/// The id's length fits in a `u64`.
pub open spec fn source_bounded(v: SourceMetaV) -> bool {
    v.id.len() <= u64::MAX
}

proof fn lemma_parse_enc_source(s: Seq<char>, i: int, v: SourceMetaV)
    requires
        source_bounded(v),
        seg_at(s, i, sp_enc_source(v)),
    ensures
        sp_parse_source(s, i) == Some((v, i + sp_enc_source(v).len())),
{
    lemma_seg_split(s, i, sp_enc_str(v.id), sp_enc_provider(v.provider));
    lemma_parse_enc_str(s, i, v.id);
    lemma_parse_enc_provider(s, i + sp_enc_str(v.id).len(), v.provider);
}

fn enc_source(out: &mut Vec<char>, v: &SourceMeta)
    ensures
        final(out)@ == old(out)@ + sp_enc_source(v@),
{
    enc_str(out, &v.id);
    enc_provider(out, &v.provider);
    proof {
        assert(out@ =~= old(out)@ + sp_enc_source(v@));
    }
}

fn parse_source(s: &Vec<char>, i: usize) -> (r: Option<(SourceMeta, usize)>)
    requires
        i <= s@.len(),
    ensures
        match r {
            Some((v, j)) => sp_parse_source(s@, i as int) == Some((v@, j as int)) && i < j
                <= s@.len(),
            None => sp_parse_source(s@, i as int) is None,
        },
{
    match parse_str(s, i) {
        None => None,
        Some((id, j)) => {
            match parse_provider(s, j) {
                None => None,
                Some((p, k)) => {
                    let v = SourceMeta { id, provider: p };
                    proof {
                        assert(sp_parse_source(s@, i as int) matches Some((sv, _)) && sv =~= v@);
                    }
                    Some((v, k))
                },
            }
        },
    }
}

// ---------------------------------------------------------------------------
// Reader settings
// ---------------------------------------------------------------------------

/// Encoding of reader settings: gap, background color, layout.
pub open spec fn sp_enc_reader_settings(v: ReaderSettingsV) -> Seq<char> {
    sp_enc_opt_u32(v.gap) + sp_enc_opt_str(v.background_color) + sp_enc_opt_layout(v.layout)
}

/// Parses reader settings.
pub open spec fn sp_parse_reader_settings(s: Seq<char>, i: int) -> Option<(ReaderSettingsV, int)> {
    match sp_parse_opt_u32(s, i) {
        Some((gap, j)) => match sp_parse_opt_str(s, j) {
            Some((bg, k)) => match sp_parse_opt_layout(s, k) {
                Some((layout, m)) => Some(
                    (ReaderSettingsV { gap, background_color: bg, layout }, m),
                ),
                None => None,
            },
            None => None,
        },
        None => None,
    }
}

/// The background color's length fits in a `u64`.
pub open spec fn reader_settings_bounded(v: ReaderSettingsV) -> bool {
    v.background_color matches Some(b) ==> b.len() <= u64::MAX
}

proof fn lemma_parse_enc_reader_settings(s: Seq<char>, i: int, v: ReaderSettingsV)
    requires
        reader_settings_bounded(v),
        seg_at(s, i, sp_enc_reader_settings(v)),
    ensures
        sp_parse_reader_settings(s, i) == Some((v, i + sp_enc_reader_settings(v).len())),
{
    let e1 = sp_enc_opt_u32(v.gap);
    let e2 = sp_enc_opt_str(v.background_color);
    let e3 = sp_enc_opt_layout(v.layout);
    lemma_seg_split(s, i, e1 + e2, e3);
    lemma_seg_split(s, i, e1, e2);
    lemma_parse_enc_opt_u32(s, i, v.gap);
    lemma_parse_enc_opt_str(s, i + e1.len(), v.background_color);
    lemma_parse_enc_opt_layout(s, i + e1.len() + e2.len(), v.layout);
}

fn enc_reader_settings(out: &mut Vec<char>, v: &ReaderSettings)
    ensures
        final(out)@ == old(out)@ + sp_enc_reader_settings(v@),
{
    enc_opt_u32(out, &v.gap);
    enc_opt_str(out, &v.background_color);
    enc_opt_layout(out, &v.layout);
    proof {
        assert(out@ =~= old(out)@ + sp_enc_reader_settings(v@));
    }
}

fn parse_reader_settings(s: &Vec<char>, i: usize) -> (r: Option<(ReaderSettings, usize)>)
    requires
        i <= s@.len(),
    ensures
        match r {
            Some((v, j)) => sp_parse_reader_settings(s@, i as int) == Some((v@, j as int)) && i < j
                <= s@.len(),
            None => sp_parse_reader_settings(s@, i as int) is None,
        },
{
    match parse_opt_u32(s, i) {
        None => None,
        Some((gap, j)) => {
            match parse_opt_str(s, j) {
                None => None,
                Some((bg, k)) => {
                    match parse_opt_layout(s, k) {
                        None => None,
                        Some((layout, m)) => {
                            let v = ReaderSettings { gap, background_color: bg, layout };
                            proof {
                                assert(sp_parse_reader_settings(s@, i as int) matches Some(
                                    (sv, _),
                                ) && sv =~= v@);
                            }
                            Some((v, m))
                        },
                    }
                },
            }
        },
    }
}

/// Encoding of optional per-item settings.
pub open spec fn sp_enc_opt_settings(o: Option<LibraryEntrySettingsV>) -> Seq<char> {
    match o {
        None => seq!['0'],
        Some(v) => seq!['1'] + sp_enc_reader_settings(v.reader),
    }
}

/// Parses optional per-item settings.
pub open spec fn sp_parse_opt_settings(s: Seq<char>, i: int) -> Option<
    (Option<LibraryEntrySettingsV>, int),
> {
    if 0 <= i < s.len() && s[i] == '0' {
        Some((None, i + 1))
    } else if 0 <= i < s.len() && s[i] == '1' {
        match sp_parse_reader_settings(s, i + 1) {
            Some((v, j)) => Some((Some(LibraryEntrySettingsV { reader: v }), j)),
            None => None,
        }
    } else {
        None
    }
}

proof fn lemma_parse_enc_opt_settings(s: Seq<char>, i: int, o: Option<LibraryEntrySettingsV>)
    requires
        o matches Some(v) ==> reader_settings_bounded(v.reader),
        seg_at(s, i, sp_enc_opt_settings(o)),
    ensures
        sp_parse_opt_settings(s, i) == Some((o, i + sp_enc_opt_settings(o).len())),
{
    match o {
        None => {
            assert(s[i + 0] == sp_enc_opt_settings(o)[0]);
        },
        Some(v) => {
            lemma_seg_split(s, i, seq!['1'], sp_enc_reader_settings(v.reader));
            assert(s[i + 0] == sp_enc_opt_settings(o)[0]);
            lemma_parse_enc_reader_settings(s, i + 1, v.reader);
            assert(LibraryEntrySettingsV { reader: v.reader } =~= v);
        },
    }
}

fn enc_opt_settings(out: &mut Vec<char>, o: &Option<LibraryEntrySettings>)
    ensures
        final(out)@ == old(out)@ + sp_enc_opt_settings(
            match *o {
                Some(v) => Some(v@),
                None => None,
            },
        ),
{
    match o {
        None => {
            out.push('0');
        },
        Some(v) => {
            out.push('1');
            enc_reader_settings(out, &v.reader);
        },
    }
    proof {
        assert(out@ =~= old(out)@ + sp_enc_opt_settings(
            match *o {
                Some(v) => Some(v@),
                None => None,
            },
        ));
    }
}

fn parse_opt_settings(s: &Vec<char>, i: usize) -> (r: Option<(Option<LibraryEntrySettings>, usize)>)
    requires
        i <= s@.len(),
    ensures
        match r {
            Some((o, j)) => sp_parse_opt_settings(s@, i as int) == Some(
                (
                    match o {
                        Some(v) => Some(v@),
                        None => None,
                    },
                    j as int,
                ),
            ) && i < j <= s@.len(),
            None => sp_parse_opt_settings(s@, i as int) is None,
        },
{
    if i >= s.len() {
        return None;
    }
    let c: char = s[i];
    if c == '0' {
        Some((None, i + 1))
    } else if c == '1' {
        match parse_reader_settings(s, i + 1) {
            Some((v, j)) => Some((Some(LibraryEntrySettings { reader: v }), j)),
            None => None,
        }
    } else {
        None
    }
}

// ---------------------------------------------------------------------------
// Catalog metadata
// ---------------------------------------------------------------------------

/// Encoding of catalog metadata, field by field.
pub open spec fn sp_enc_metadata(m: MetadataV) -> Seq<char> {
    sp_enc_i64(m.id) + sp_enc_str(m.title) + sp_enc_opt_str(m.cover) + sp_enc_opt_str_list(
        m.authors,
    ) + sp_enc_opt_str_list(m.artists) + sp_enc_opt_str(m.description) + sp_enc_opt_i64(m.year)
        + sp_enc_opt_str_list(m.tags) + sp_enc_str(m.media_type) + sp_enc_str(m.status)
        + sp_enc_opt_str_list(m.genres)
}

/// Parses catalog metadata.
pub open spec fn sp_parse_metadata(s: Seq<char>, i: int) -> Option<(MetadataV, int)> {
    match sp_parse_i64(s, i) {
        Some((id, i1)) => match sp_parse_str(s, i1) {
            Some((title, i2)) => match sp_parse_opt_str(s, i2) {
                Some((cover, i3)) => match sp_parse_opt_str_list(s, i3) {
                    Some((authors, i4)) => match sp_parse_opt_str_list(s, i4) {
                        Some((artists, i5)) => match sp_parse_opt_str(s, i5) {
                            Some((description, i6)) => match sp_parse_opt_i64(s, i6) {
                                Some((year, i7)) => match sp_parse_opt_str_list(s, i7) {
                                    Some((tags, i8)) => match sp_parse_str(s, i8) {
                                        Some((media_type, i9)) => match sp_parse_str(s, i9) {
                                            Some((status, i10)) => match sp_parse_opt_str_list(
                                                s,
                                                i10,
                                            ) {
                                                Some((genres, i11)) => Some(
                                                    (
                                                        MetadataV {
                                                            id,
                                                            title,
                                                            cover,
                                                            authors,
                                                            artists,
                                                            description,
                                                            year,
                                                            tags,
                                                            media_type,
                                                            status,
                                                            genres,
                                                        },
                                                        i11,
                                                    ),
                                                ),
                                                None => None,
                                            },
                                            None => None,
                                        },
                                        None => None,
                                    },
                                    None => None,
                                },
                                None => None,
                            },
                            None => None,
                        },
                        None => None,
                    },
                    None => None,
                },
                None => None,
            },
            None => None,
        },
        None => None,
    }
}

/// Every string and list in the metadata fits the format's counters.
pub open spec fn metadata_bounded(m: MetadataV) -> bool {
    &&& m.title.len() <= u64::MAX
    &&& (m.cover matches Some(v) ==> v.len() <= u64::MAX)
    &&& (m.authors matches Some(l) ==> str_list_bounded(l))
    &&& (m.artists matches Some(l) ==> str_list_bounded(l))
    &&& (m.description matches Some(v) ==> v.len() <= u64::MAX)
    &&& (m.tags matches Some(l) ==> str_list_bounded(l))
    &&& m.media_type.len() <= u64::MAX
    &&& m.status.len() <= u64::MAX
    &&& (m.genres matches Some(l) ==> str_list_bounded(l))
}

#[verifier::rlimit(100)]
#[verifier::spinoff_prover]
proof fn lemma_parse_enc_metadata(s: Seq<char>, i: int, m: MetadataV)
    requires
        metadata_bounded(m),
        seg_at(s, i, sp_enc_metadata(m)),
    ensures
        sp_parse_metadata(s, i) == Some((m, i + sp_enc_metadata(m).len())),
{
    let e1 = sp_enc_i64(m.id);
    let e2 = sp_enc_str(m.title);
    let e3 = sp_enc_opt_str(m.cover);
    let e4 = sp_enc_opt_str_list(m.authors);
    let e5 = sp_enc_opt_str_list(m.artists);
    let e6 = sp_enc_opt_str(m.description);
    let e7 = sp_enc_opt_i64(m.year);
    let e8 = sp_enc_opt_str_list(m.tags);
    let e9 = sp_enc_str(m.media_type);
    let e10 = sp_enc_str(m.status);
    let e11 = sp_enc_opt_str_list(m.genres);
    lemma_seg_split(s, i, e1 + e2 + e3 + e4 + e5 + e6 + e7 + e8 + e9 + e10, e11);
    lemma_seg_split(s, i, e1 + e2 + e3 + e4 + e5 + e6 + e7 + e8 + e9, e10);
    lemma_seg_split(s, i, e1 + e2 + e3 + e4 + e5 + e6 + e7 + e8, e9);
    lemma_seg_split(s, i, e1 + e2 + e3 + e4 + e5 + e6 + e7, e8);
    lemma_seg_split(s, i, e1 + e2 + e3 + e4 + e5 + e6, e7);
    lemma_seg_split(s, i, e1 + e2 + e3 + e4 + e5, e6);
    lemma_seg_split(s, i, e1 + e2 + e3 + e4, e5);
    lemma_seg_split(s, i, e1 + e2 + e3, e4);
    lemma_seg_split(s, i, e1 + e2, e3);
    lemma_seg_split(s, i, e1, e2);
    lemma_parse_enc_i64(s, i, m.id);
    lemma_parse_enc_str(s, i + e1.len(), m.title);
    lemma_parse_enc_opt_str(s, i + e1.len() + e2.len(), m.cover);
    lemma_parse_enc_opt_str_list(s, i + e1.len() + e2.len() + e3.len(), m.authors);
    lemma_parse_enc_opt_str_list(s, i + e1.len() + e2.len() + e3.len() + e4.len(), m.artists);
    lemma_parse_enc_opt_str(
        s,
        i + e1.len() + e2.len() + e3.len() + e4.len() + e5.len(),
        m.description,
    );
    lemma_parse_enc_opt_i64(
        s,
        i + e1.len() + e2.len() + e3.len() + e4.len() + e5.len() + e6.len(),
        m.year,
    );
    lemma_parse_enc_opt_str_list(
        s,
        i + e1.len() + e2.len() + e3.len() + e4.len() + e5.len() + e6.len() + e7.len(),
        m.tags,
    );
    lemma_parse_enc_str(
        s,
        i + e1.len() + e2.len() + e3.len() + e4.len() + e5.len() + e6.len() + e7.len() + e8.len(),
        m.media_type,
    );
    lemma_parse_enc_str(
        s,
        i + e1.len() + e2.len() + e3.len() + e4.len() + e5.len() + e6.len() + e7.len() + e8.len()
            + e9.len(),
        m.status,
    );
    lemma_parse_enc_opt_str_list(
        s,
        i + e1.len() + e2.len() + e3.len() + e4.len() + e5.len() + e6.len() + e7.len() + e8.len()
            + e9.len() + e10.len(),
        m.genres,
    );
    assert(sp_parse_metadata(s, i) matches Some((mv, end)) && mv =~= m && end == i
        + sp_enc_metadata(m).len());
}

#[verifier::rlimit(60)]
fn enc_metadata(out: &mut Vec<char>, m: &Metadata)
    ensures
        final(out)@ == old(out)@ + sp_enc_metadata(m@),
{
    enc_i64(out, m.id);
    enc_str(out, &m.title);
    enc_opt_str(out, &m.cover);
    enc_opt_str_list(out, &m.authors);
    proof {
        assert(out@ =~= old(out)@ + (sp_enc_i64(m@.id) + sp_enc_str(m@.title) + sp_enc_opt_str(
            m@.cover,
        ) + sp_enc_opt_str_list(m@.authors)));
    }
    enc_opt_str_list(out, &m.artists);
    enc_opt_str(out, &m.description);
    enc_opt_i64(out, &m.year);
    proof {
        assert(out@ =~= old(out)@ + (sp_enc_i64(m@.id) + sp_enc_str(m@.title) + sp_enc_opt_str(
            m@.cover,
        ) + sp_enc_opt_str_list(m@.authors) + sp_enc_opt_str_list(m@.artists) + sp_enc_opt_str(
            m@.description,
        ) + sp_enc_opt_i64(m@.year)));
    }
    enc_opt_str_list(out, &m.tags);
    enc_str(out, &m.media_type);
    enc_str(out, &m.status);
    enc_opt_str_list(out, &m.genres);
    proof {
        assert(out@ =~= old(out)@ + sp_enc_metadata(m@));
    }
}

fn parse_metadata(s: &Vec<char>, i: usize) -> (r: Option<(Metadata, usize)>)
    requires
        i <= s@.len(),
    ensures
        match r {
            Some((m, j)) => sp_parse_metadata(s@, i as int) == Some((m@, j as int)) && i < j
                <= s@.len(),
            None => sp_parse_metadata(s@, i as int) is None,
        },
{
    let p1 = parse_i64(s, i);
    let (id, i1) = match p1 {
        Some(x) => x,
        None => {
            return None;
        },
    };
    let p2 = parse_str(s, i1);
    let (title, i2) = match p2 {
        Some(x) => x,
        None => {
            return None;
        },
    };
    let p3 = parse_opt_str(s, i2);
    let (cover, i3) = match p3 {
        Some(x) => x,
        None => {
            return None;
        },
    };
    let p4 = parse_opt_str_list(s, i3);
    let (authors, i4) = match p4 {
        Some(x) => x,
        None => {
            return None;
        },
    };
    let p5 = parse_opt_str_list(s, i4);
    let (artists, i5) = match p5 {
        Some(x) => x,
        None => {
            return None;
        },
    };
    let p6 = parse_opt_str(s, i5);
    let (description, i6) = match p6 {
        Some(x) => x,
        None => {
            return None;
        },
    };
    let p7 = parse_opt_i64(s, i6);
    let (year, i7) = match p7 {
        Some(x) => x,
        None => {
            return None;
        },
    };
    let p8 = parse_opt_str_list(s, i7);
    let (tags, i8) = match p8 {
        Some(x) => x,
        None => {
            return None;
        },
    };
    let p9 = parse_str(s, i8);
    let (media_type, i9) = match p9 {
        Some(x) => x,
        None => {
            return None;
        },
    };
    let p10 = parse_str(s, i9);
    let (status, i10) = match p10 {
        Some(x) => x,
        None => {
            return None;
        },
    };
    let p11 = parse_opt_str_list(s, i10);
    let (genres, i11) = match p11 {
        Some(x) => x,
        None => {
            return None;
        },
    };
    let m = Metadata {
        id,
        title,
        cover,
        authors,
        artists,
        description,
        year,
        tags,
        media_type,
        status,
        genres,
    };
    proof {
        assert(sp_parse_metadata(s@, i as int) matches Some((mv, _)) && mv =~= m@);
    }
    Some((m, i11))
}

/// Encoding of optional catalog metadata.
pub open spec fn sp_enc_opt_metadata(o: Option<MetadataV>) -> Seq<char> {
    match o {
        None => seq!['0'],
        Some(m) => seq!['1'] + sp_enc_metadata(m),
    }
}

/// Parses optional catalog metadata.
pub open spec fn sp_parse_opt_metadata(s: Seq<char>, i: int) -> Option<(Option<MetadataV>, int)> {
    if 0 <= i < s.len() && s[i] == '0' {
        Some((None, i + 1))
    } else if 0 <= i < s.len() && s[i] == '1' {
        match sp_parse_metadata(s, i + 1) {
            Some((m, j)) => Some((Some(m), j)),
            None => None,
        }
    } else {
        None
    }
}

proof fn lemma_parse_enc_opt_metadata(s: Seq<char>, i: int, o: Option<MetadataV>)
    requires
        o matches Some(m) ==> metadata_bounded(m),
        seg_at(s, i, sp_enc_opt_metadata(o)),
    ensures
        sp_parse_opt_metadata(s, i) == Some((o, i + sp_enc_opt_metadata(o).len())),
{
    match o {
        None => {
            assert(s[i + 0] == sp_enc_opt_metadata(o)[0]);
        },
        Some(m) => {
            lemma_seg_split(s, i, seq!['1'], sp_enc_metadata(m));
            assert(s[i + 0] == sp_enc_opt_metadata(o)[0]);
            lemma_parse_enc_metadata(s, i + 1, m);
        },
    }
}

fn enc_opt_metadata(out: &mut Vec<char>, o: &Option<Metadata>)
    ensures
        final(out)@ == old(out)@ + sp_enc_opt_metadata(
            match *o {
                Some(m) => Some(m@),
                None => None,
            },
        ),
{
    match o {
        None => {
            out.push('0');
        },
        Some(m) => {
            out.push('1');
            enc_metadata(out, m);
        },
    }
    proof {
        assert(out@ =~= old(out)@ + sp_enc_opt_metadata(
            match *o {
                Some(m) => Some(m@),
                None => None,
            },
        ));
    }
}

fn parse_opt_metadata(s: &Vec<char>, i: usize) -> (r: Option<(Option<Metadata>, usize)>)
    requires
        i <= s@.len(),
    ensures
        match r {
            Some((o, j)) => sp_parse_opt_metadata(s@, i as int) == Some(
                (
                    match o {
                        Some(m) => Some(m@),
                        None => None,
                    },
                    j as int,
                ),
            ) && i < j <= s@.len(),
            None => sp_parse_opt_metadata(s@, i as int) is None,
        },
{
    if i >= s.len() {
        return None;
    }
    let c: char = s[i];
    if c == '0' {
        Some((None, i + 1))
    } else if c == '1' {
        match parse_metadata(s, i + 1) {
            Some((m, j)) => Some((Some(m), j)),
            None => None,
        }
    } else {
        None
    }
}

// ---------------------------------------------------------------------------
// Whole records
// ---------------------------------------------------------------------------

/// Encoding of a whole sidecar record, behind the format header.
pub open spec fn sp_enc_metafile(v: MetafileV) -> Seq<char> {
    seq!['m', '1'] + sp_enc_source(v.source) + sp_enc_opt_metadata(v.metadata)
        + sp_enc_progress_list(v.reading_progress) + sp_enc_opt_settings(v.settings)
}

/// Parses a whole sidecar record.
pub open spec fn sp_parse_metafile(s: Seq<char>, i: int) -> Option<(MetafileV, int)> {
    if 0 <= i && i + 2 <= s.len() && s[i] == 'm' && s[i + 1] == '1' {
        match sp_parse_source(s, i + 2) {
            Some((source, i1)) => match sp_parse_opt_metadata(s, i1) {
                Some((metadata, i2)) => match sp_parse_progress_list(s, i2) {
                    Some((reading_progress, i3)) => match sp_parse_opt_settings(s, i3) {
                        Some((settings, i4)) => Some(
                            (MetafileV { source, metadata, reading_progress, settings }, i4),
                        ),
                        None => None,
                    },
                    None => None,
                },
                None => None,
            },
            None => None,
        }
    } else {
        None
    }
}

/// Decodes a whole sidecar file: the record must fill the input exactly.
pub open spec fn sp_decode_metafile(s: Seq<char>) -> Option<MetafileV> {
    match sp_parse_metafile(s, 0) {
        Some((m, j)) => if j == s.len() {
            Some(m)
        } else {
            None
        },
        None => None,
    }
}

/// Every string and list in the record fits the format's counters.
pub open spec fn metafile_bounded(v: MetafileV) -> bool {
    &&& source_bounded(v.source)
    &&& (v.metadata matches Some(m) ==> metadata_bounded(m))
    &&& progress_bounded(v.reading_progress)
    &&& (v.settings matches Some(st) ==> reader_settings_bounded(st.reader))
}

proof fn lemma_parse_enc_metafile(s: Seq<char>, i: int, v: MetafileV)
    requires
        metafile_bounded(v),
        distinct_keys(v.reading_progress),
        seg_at(s, i, sp_enc_metafile(v)),
    ensures
        sp_parse_metafile(s, i) == Some((v, i + sp_enc_metafile(v).len())),
{
    let h = seq!['m', '1'];
    let e1 = sp_enc_source(v.source);
    let e2 = sp_enc_opt_metadata(v.metadata);
    let e3 = sp_enc_progress_list(v.reading_progress);
    let e4 = sp_enc_opt_settings(v.settings);
    lemma_seg_split(s, i, h + e1 + e2 + e3, e4);
    lemma_seg_split(s, i, h + e1 + e2, e3);
    lemma_seg_split(s, i, h + e1, e2);
    lemma_seg_split(s, i, h, e1);
    assert(s[i + 0] == (h + e1 + e2 + e3 + e4)[0]);
    assert(s[i + 1] == (h + e1 + e2 + e3 + e4)[1]);
    lemma_parse_enc_source(s, i + 2, v.source);
    lemma_parse_enc_opt_metadata(s, i + 2 + e1.len(), v.metadata);
    lemma_parse_enc_progress_list(s, i + 2 + e1.len() + e2.len(), v.reading_progress);
    lemma_parse_enc_opt_settings(s, i + 2 + e1.len() + e2.len() + e3.len(), v.settings);
    assert(sp_parse_metafile(s, i) matches Some((mv, end)) && mv =~= v && end == i
        + sp_enc_metafile(v).len());
}

/// Round trip: a well-formed record decodes from its own encoding.
pub proof fn lemma_metafile_round_trip(v: MetafileV)
    requires
        metafile_bounded(v),
        distinct_keys(v.reading_progress),
    ensures
        sp_decode_metafile(sp_enc_metafile(v)) == Some(v),
{
    let s = sp_enc_metafile(v);
    assert(seg_at(s, 0, s));
    lemma_parse_enc_metafile(s, 0, v);
}

impl Metafile {
    /// Encodes this record into its sidecar text form.
    pub fn encode(&self) -> (r: Vec<char>)
        ensures
            r@ == sp_enc_metafile(self@),
    {
        let mut out: Vec<char> = Vec::new();
        out.push('m');
        out.push('1');
        proof {
            assert(out@ =~= seq!['m', '1']);
        }
        enc_source(&mut out, &self.source);
        enc_opt_metadata(&mut out, &self.metadata);
        enc_progress_list(&mut out, &self.reading_progress.entries);
        enc_opt_settings(&mut out, &self.settings);
        proof {
            assert(out@ =~= sp_enc_metafile(self@));
        }
        out
    }

    /// Decodes a sidecar text form; `None` when the input is not exactly a
    /// canonical record. A decoded record is well-formed.
    pub fn decode(s: &Vec<char>) -> (r: Option<Metafile>)
        ensures
            match r {
                Some(m) => sp_decode_metafile(s@) == Some(m@) && m.wf(),
                None => sp_decode_metafile(s@) is None,
            },
    {
        if s.len() < 2 {
            return None;
        }
        let c0: char = s[0];
        let c1: char = s[1];
        if c0 != 'm' || c1 != '1' {
            return None;
        }
        let p1 = parse_source(s, 2);
        let (source, i1) = match p1 {
            Some(x) => x,
            None => {
                return None;
            },
        };
        let p2 = parse_opt_metadata(s, i1);
        let (metadata, i2) = match p2 {
            Some(x) => x,
            None => {
                return None;
            },
        };
        let p3 = parse_progress_list(s, i2);
        let (entries, i3) = match p3 {
            Some(x) => x,
            None => {
                return None;
            },
        };
        let p4 = parse_opt_settings(s, i3);
        let (settings, i4) = match p4 {
            Some(x) => x,
            None => {
                return None;
            },
        };
        if i4 != s.len() {
            return None;
        }
        let m = Metafile {
            source,
            metadata,
            reading_progress: ProgressMap { entries },
            settings,
        };
        proof {
            assert(sp_parse_metafile(s@, 0) matches Some((mv, _)) && mv =~= m@);
        }
        Some(m)
    }
}

} // verus!
