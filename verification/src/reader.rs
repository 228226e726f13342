//! The page-reader abstraction: something that can hold decompressed page
//! archives in memory and answer page queries. The archive page cache
//! implements it; tests may substitute their own.

use vstd::prelude::*;
use crate::errors::AppError;

verus! {

/// A holder of loaded page archives, addressed by path.
///
/// `book(path)` is the abstract cache content: `Some(pages)` when the archive
/// at `path` is resident, with one byte string per page.
pub trait Reader {
    /// The pages resident for `path`, if any.
    spec fn book(&self, path: Seq<char>) -> Option<Seq<Seq<u8>>>;

    /// The implementation's own well-formedness condition.
    spec fn inv(&self) -> bool;

    /// Makes the archive at `path` resident and returns its page count.
    /// A resident archive is served as it is, without touching anything.
    fn load(&mut self, path: &String) -> (r: Result<usize, AppError>)
        requires
            old(self).inv(),
        ensures
            final(self).inv(),
            r matches Ok(n) ==> final(self).book(path@) matches Some(pages) && pages.len()
                == n,
            old(self).book(path@) matches Some(pages) ==> r == Ok::<usize, AppError>(
                pages.len() as usize,
            ) && final(self).book(path@) == old(self).book(path@),
            forall|q: Seq<char>| q != path@ ==> final(self).book(q) == old(self).book(q),
            r is Err ==> final(self).book(path@) == old(self).book(path@),
    ;

    /// The bytes of one resident page.
    fn get(&self, path: &String, index: usize) -> (r: Option<Vec<u8>>)
        requires
            self.inv(),
        ensures
            match self.book(path@) {
                Some(pages) => (r is Some <==> index < pages.len()) && (r matches Some(page)
                    ==> page@ == pages[index as int]),
                None => r is None,
            },
    ;

    /// All resident pages for `path`.
    fn list(&self, path: &String) -> (r: Option<Vec<Vec<u8>>>)
        requires
            self.inv(),
        ensures
            match self.book(path@) {
                Some(pages) => r matches Some(v) && v@.map_values(|p: Vec<u8>| p@) == pages,
                None => r is None,
            },
    ;

    /// The pixel dimensions of every resident page for `path`.
    fn get_dimensions(&self, path: &String) -> (r: Result<Vec<(u32, u32)>, AppError>)
        requires
            self.inv(),
        ensures
            match self.book(path@) {
                Some(pages) => r matches Ok(dims) && dims@.len() == pages.len(),
                None => r == Err::<Vec<(u32, u32)>, AppError>(AppError::CacheMiss),
            },
    ;
}

} // verus!
