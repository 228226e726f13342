//! The provider's category taxonomy and its query-parameter form: the
//! categories the index understands, written `main_sub` in its query
//! strings and category links.

use vstd::prelude::*;
use crate::text::chars_of;

verus! {

/// A category of the provider's index. Only the literature branch is used.
#[derive(Clone, Copy, PartialEq, Eq, Structural, Debug)]
pub enum NyaaCategory {
    Literature(LiteratureSubCategory),
}

/// The literature subcategories of the provider's index.
#[derive(Clone, Copy, PartialEq, Eq, Structural, Debug)]
pub enum LiteratureSubCategory {
    Base,
    EnglishTranslated,
    NonEnglishTranslated,
    Raw,
}

/// The result filters the provider's index offers.
#[derive(Clone, Copy, PartialEq, Eq, Structural, Debug)]
pub enum NyaaFilter {
    NoFilter,
    NoRemakes,
    TrustedOnly,
}

/// The query-parameter form of a subcategory.
pub open spec fn sp_sub_param(s: LiteratureSubCategory) -> Seq<char> {
    match s {
        LiteratureSubCategory::Base => seq!['0'],
        LiteratureSubCategory::EnglishTranslated => seq!['1'],
        LiteratureSubCategory::NonEnglishTranslated => seq!['2'],
        LiteratureSubCategory::Raw => seq!['3'],
    }
}

/// The query-parameter form of a category: `main_sub`.
pub open spec fn sp_category_param(c: NyaaCategory) -> Seq<char> {
    match c {
        NyaaCategory::Literature(sub) => seq!['3', '_'] + sp_sub_param(sub),
    }
}

/// The query-parameter form of a filter.
pub open spec fn sp_filter_param(f: NyaaFilter) -> Seq<char> {
    match f {
        NyaaFilter::NoFilter => seq!['0'],
        NyaaFilter::NoRemakes => seq!['1'],
        NyaaFilter::TrustedOnly => seq!['2'],
    }
}

/// The category a href of the form `/?c=main_sub` denotes.
pub open spec fn sp_category_of_href(s: Seq<char>) -> Option<NyaaCategory> {
    if s.len() == 7 && s[0] == '/' && s[1] == '?' && s[2] == 'c' && s[3] == '=' && s[4] == '3'
        && s[5] == '_' {
        if s[6] == '0' {
            Some(NyaaCategory::Literature(LiteratureSubCategory::Base))
        } else if s[6] == '1' {
            Some(NyaaCategory::Literature(LiteratureSubCategory::EnglishTranslated))
        } else if s[6] == '2' {
            Some(NyaaCategory::Literature(LiteratureSubCategory::NonEnglishTranslated))
        } else if s[6] == '3' {
            Some(NyaaCategory::Literature(LiteratureSubCategory::Raw))
        } else {
            None
        }
    } else {
        None
    }
}

impl LiteratureSubCategory {
    /// Writes this subcategory as its query parameter.
    pub fn to_query_param(&self) -> (r: String)
        ensures
            r@ == sp_sub_param(*self),
    {
        let r = match self {
            LiteratureSubCategory::Base => "0",
            LiteratureSubCategory::EnglishTranslated => "1",
            LiteratureSubCategory::NonEnglishTranslated => "2",
            LiteratureSubCategory::Raw => "3",
        };
        proof {
            reveal_strlit("0");
            reveal_strlit("1");
            reveal_strlit("2");
            reveal_strlit("3");
            assert("0"@ =~= seq!['0']);
            assert("1"@ =~= seq!['1']);
            assert("2"@ =~= seq!['2']);
            assert("3"@ =~= seq!['3']);
        }
        r.to_owned()
    }
}

impl NyaaCategory {
    /// Writes this category as its query parameter, `main_sub`.
    pub fn to_query_param(&self) -> (r: String)
        ensures
            r@ == sp_category_param(*self),
    {
        match self {
            NyaaCategory::Literature(sub) => {
                let mut r = "3_".to_owned();
                proof {
                    reveal_strlit("3_");
                    assert("3_"@ =~= seq!['3', '_']);
                }
                let sub_param = sub.to_query_param();
                r.append(sub_param.as_str());
                r
            },
        }
    }

    /// Reads a category from the provider's category-link href, which has
    /// the form `/?c=main_sub`. An unknown main category or subcategory is
    /// an error.
    pub fn from_query_param(s: &str) -> (r: Result<NyaaCategory, String>)
        ensures
            match r {
                Ok(c) => sp_category_of_href(s@) == Some(c),
                Err(_) => sp_category_of_href(s@) is None,
            },
    {
        let chars = chars_of(s);
        if chars.len() != 7 {
            return Err("Invalid category query param".to_owned());
        }
        if !(chars[0] == '/' && chars[1] == '?' && chars[2] == 'c' && chars[3] == '=') {
            return Err("Invalid category query param".to_owned());
        }
        if chars[5] != '_' {
            return Err("Invalid category query param".to_owned());
        }
        if chars[4] != '3' {
            return Err("unhandled main category".to_owned());
        }
        let sub: char = chars[6];
        if sub == '0' {
            Ok(NyaaCategory::Literature(LiteratureSubCategory::Base))
        } else if sub == '1' {
            Ok(NyaaCategory::Literature(LiteratureSubCategory::EnglishTranslated))
        } else if sub == '2' {
            Ok(NyaaCategory::Literature(LiteratureSubCategory::NonEnglishTranslated))
        } else if sub == '3' {
            Ok(NyaaCategory::Literature(LiteratureSubCategory::Raw))
        } else {
            Err("unhandled subcategory".to_owned())
        }
    }
}

impl NyaaFilter {
    /// Writes this filter as its query parameter.
    pub fn to_query_param(&self) -> (r: String)
        ensures
            r@ == sp_filter_param(*self),
    {
        let r = match self {
            NyaaFilter::NoFilter => "0",
            NyaaFilter::NoRemakes => "1",
            NyaaFilter::TrustedOnly => "2",
        };
        proof {
            reveal_strlit("0");
            reveal_strlit("1");
            reveal_strlit("2");
            assert("0"@ =~= seq!['0']);
            assert("1"@ =~= seq!['1']);
            assert("2"@ =~= seq!['2']);
        }
        r.to_owned()
    }
}

/// A category written as a query parameter reads back as itself.
pub proof fn lemma_category_param_round_trip(c: NyaaCategory)
    ensures
        sp_category_of_href(seq!['/', '?', 'c', '='] + sp_category_param(c)) == Some(c),
{
    let s = seq!['/', '?', 'c', '='] + sp_category_param(c);
    match c {
        NyaaCategory::Literature(sub) => {
            assert(s.len() == 7);
            assert(s[4] == '3' && s[5] == '_');
            assert(s[6] == sp_sub_param(sub)[0]);
        },
    }
}

} // verus!
