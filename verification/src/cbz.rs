//! The archive page cache: decompresses a page archive's entries into
//! memory once and serves page bytes and dimensions from the cache. Loaded
//! archives stay resident for the process lifetime; distinct paths get
//! independent slots.

use vstd::prelude::*;
use crate::assoc::{
    distinct_keys, lemma_map_of_contains_key, lemma_map_of_index, lemma_map_of_push,
    lemma_map_of_update, map_of,
};
use crate::errors::AppError;
use crate::reader::Reader;

verus! {

/// The entries the zip crate decompresses from an archive's bytes, in index
/// order; `None` when the bytes are not a readable archive.
pub uninterp spec fn zip_entries_of(bytes: Seq<u8>) -> Option<Seq<Seq<u8>>>;

/// The pixel dimensions the image crate reads from a page's bytes;
/// undecodable bytes give `(0, 0)`. The image crate's format guessing
/// consults a global, runtime-mutable hook registry; this crate registers no
/// hooks, so here the result is a function of the bytes alone — an embedder
/// that registers decoding hooks would invalidate that reading.
pub uninterp spec fn dims_of(page: Seq<u8>) -> (u32, u32);

/// Relies on `zip::ZipArchive` (`new`, `len`, `by_index`) and
/// `std::io::Read::read_to_end`: an archive's entries are decompressed in
/// index order, and the result depends on the bytes alone; any open, index
/// or read failure is reported as an error.
#[verifier::external_body]
fn read_zip_entries(bytes: &Vec<u8>) -> (r: Result<Vec<Vec<u8>>, AppError>)
    ensures
        r matches Ok(pages) ==> zip_entries_of(bytes@) matches Some(entries) && pages@.map_values(
            |p: Vec<u8>| p@,
        ) == entries,
        r is Err <==> zip_entries_of(bytes@) is None,
        r matches Err(e) ==> e == AppError::BadArchive,
{
    let cursor = std::io::Cursor::new(bytes.as_slice());
    let mut archive = zip::ZipArchive::new(cursor).map_err(|_| AppError::BadArchive)?;
    let mut pages = Vec::new();
    for i in 0..archive.len() {
        let mut entry = archive.by_index(i).map_err(|_| AppError::BadArchive)?;
        let mut content = Vec::new();
        std::io::Read::read_to_end(&mut entry, &mut content).map_err(
            |_| AppError::BadArchive,
        )?;
        pages.push(content);
    }
    Ok(pages)
}

/// Relies on `image::ImageReader` (`with_guessed_format`,
/// `into_dimensions`): the dimensions depend on the page's bytes alone;
/// bytes that do not decode give `(0, 0)`.
#[verifier::external_body]
fn page_dimensions(page: &Vec<u8>) -> (r: (u32, u32))
    ensures
        r == dims_of(page@),
{
    let cursor = std::io::Cursor::new(page.as_slice());
    match image::ImageReader::new(cursor).with_guessed_format() {
        Ok(reader) => reader.into_dimensions().unwrap_or((0, 0)),
        Err(_) => (0, 0),
    }
}

/// Copies a byte vector.
fn copy_bytes(v: &Vec<u8>) -> (r: Vec<u8>)
    ensures
        r@ == v@,
{
    let mut r: Vec<u8> = Vec::new();
    let mut i: usize = 0;
    while i < v.len()
        invariant
            i <= v@.len(),
            r@ == v@.take(i as int),
        decreases v@.len() - i,
    {
        r.push(v[i]);
        proof {
            assert(r@ =~= v@.take(i + 1));
        }
        i = i + 1;
    }
    proof {
        assert(v@.take(v@.len() as int) =~= v@);
    }
    r
}

/// The page cache: one slot per archive path, holding the decompressed
/// pages.
pub struct CBZReader {
    pub books: Vec<(String, Vec<Vec<u8>>)>,
}

impl CBZReader {
    /// The path/pages pairs, in storage order.
    pub open spec fn pairs(&self) -> Seq<(Seq<char>, Seq<Seq<u8>>)> {
        self.books@.map_values(
            |b: (String, Vec<Vec<u8>>)| (b.0@, b.1@.map_values(|p: Vec<u8>| p@)),
        )
    }

    /// The cache as a finite map from path to pages.
    pub open spec fn cache(&self) -> Map<Seq<char>, Seq<Seq<u8>>> {
        map_of(self.pairs())
    }

    /// Paths are distinct.
    pub open spec fn wf(&self) -> bool {
        distinct_keys(self.pairs())
    }

    /// An empty cache.
    pub fn new() -> (r: CBZReader)
        ensures
            r.wf(),
            r.cache() == Map::<Seq<char>, Seq<Seq<u8>>>::empty(),
    {
        let r = CBZReader { books: Vec::new() };
        proof {
            assert(r.pairs() =~= Seq::<(Seq<char>, Seq<Seq<u8>>)>::empty());
            assert(r.cache() =~= Map::<Seq<char>, Seq<Seq<u8>>>::empty());
        }
        r
    }

    /// Index of the slot for `path`, if any.
    fn position(&self, path: &String) -> (r: Option<usize>)
        ensures
            match r {
                Some(i) => i < self.pairs().len() && self.pairs()[i as int].0 == path@,
                None => forall|i: int|
                    0 <= i < self.pairs().len() ==> self.pairs()[i].0 != path@,
            },
    {
        let mut i: usize = 0;
        while i < self.books.len()
            invariant
                i <= self.books@.len(),
                self.pairs().len() == self.books@.len(),
                forall|j: int| 0 <= j < i ==> self.pairs()[j].0 != path@,
            decreases self.books@.len() - i,
        {
            if self.books[i].0 == *path {
                return Some(i);
            }
            i = i + 1;
        }
        None
    }

    /// Whether the archive at `path` is resident.
    pub fn is_loaded(&self, path: &String) -> (r: bool)
        requires
            self.wf(),
        ensures
            r == self.cache().contains_key(path@),
    {
        proof {
            lemma_map_of_contains_key(self.pairs(), path@);
        }
        let position = self.position(path);
        position.is_some()
    }

    /// The page count of a resident archive.
    pub fn page_count(&self, path: &String) -> (r: Result<usize, AppError>)
        requires
            self.wf(),
        ensures
            match r {
                Ok(n) => self.cache().contains_key(path@) && n == self.cache()[path@].len(),
                Err(e) => e == AppError::CacheMiss && !self.cache().contains_key(path@),
            },
    {
        proof {
            lemma_map_of_contains_key(self.pairs(), path@);
        }
        let position = self.position(path);
        match position {
            Some(i) => {
                proof {
                    lemma_map_of_index(self.pairs(), i as int);
                }
                Ok(self.books[i].1.len())
            },
            None => Err(AppError::CacheMiss),
        }
    }

    /// Decompresses `bytes` into the slot for `path`, replacing any prior
    /// content, and returns the page count.
    pub fn load_bytes(&mut self, path: &String, bytes: &Vec<u8>) -> (r: Result<usize, AppError>)
        requires
            old(self).wf(),
        ensures
            final(self).wf(),
            match r {
                Ok(n) => zip_entries_of(bytes@) matches Some(entries) && n == entries.len()
                    && final(self).cache() == old(self).cache().insert(path@, entries),
                Err(e) => e == AppError::BadArchive && zip_entries_of(bytes@) is None
                    && *final(self) == *old(self),
            },
    {
        let unzipped = read_zip_entries(bytes);
        match unzipped {
            Err(e) => Err(e),
            Ok(pages) => {
                let n = pages.len();
                let ghost entries = pages@.map_values(|p: Vec<u8>| p@);
                let position = self.position(path);
                match position {
                    Some(i) => {
                        proof {
                            lemma_map_of_update(self.pairs(), i as int, entries);
                        }
                        let key = self.books[i].0.clone();
                        self.books.set(i, (key, pages));
                        proof {
                            assert(self.pairs() =~= old(self).pairs().update(
                                i as int,
                                (old(self).pairs()[i as int].0, entries),
                            ));
                        }
                    },
                    None => {
                        proof {
                            lemma_map_of_push(self.pairs(), path@, entries);
                        }
                        self.books.push((path.clone(), pages));
                        proof {
                            assert(self.pairs() =~= old(self).pairs().push((path@, entries)));
                            assert forall|a: int, b: int|
                                0 <= a < b < self.pairs().len() implies self.pairs()[a].0
                                != self.pairs()[b].0 by {
                                if b == self.pairs().len() - 1 {
                                    assert(self.pairs()[a].0 != path@);
                                }
                            }
                        }
                    },
                }
                Ok(n)
            },
        }
    }

    /// The pixel dimensions of every page of a resident archive, in page
    /// order.
    pub fn dimensions(&self, path: &String) -> (r: Result<Vec<(u32, u32)>, AppError>)
        requires
            self.wf(),
        ensures
            match r {
                Ok(dims) => self.cache().contains_key(path@) && dims@.len()
                    == self.cache()[path@].len() && forall|i: int|
                    0 <= i < dims@.len() ==> #[trigger] dims@[i] == dims_of(
                        self.cache()[path@][i],
                    ),
                Err(e) => e == AppError::CacheMiss && !self.cache().contains_key(path@),
            },
    {
        proof {
            lemma_map_of_contains_key(self.pairs(), path@);
        }
        let position = self.position(path);
        let i = match position {
            Some(i) => i,
            None => {
                return Err(AppError::CacheMiss);
            },
        };
        proof {
            lemma_map_of_index(self.pairs(), i as int);
        }
        let mut dims: Vec<(u32, u32)> = Vec::new();
        let mut k: usize = 0;
        let ghost pages = self.cache()[path@];
        while k < self.books[i].1.len()
            invariant
                i < self.books@.len(),
                k <= self.books@[i as int].1@.len(),
                pages == self.pairs()[i as int].1,
                pages == self.cache()[path@],
                pages.len() == self.books@[i as int].1@.len(),
                dims@.len() == k,
                forall|q: int| 0 <= q < k ==> #[trigger] dims@[q] == dims_of(pages[q]),
            decreases self.books@[i as int].1@.len() - k,
        {
            let d = page_dimensions(&self.books[i].1[k]);
            proof {
                assert(self.books@[i as int].1@[k as int]@ == pages[k as int]);
            }
            dims.push(d);
            k = k + 1;
        }
        Ok(dims)
    }
}

impl Reader for CBZReader {
    open spec fn book(&self, path: Seq<char>) -> Option<Seq<Seq<u8>>> {
        if self.cache().contains_key(path) {
            Some(self.cache()[path])
        } else {
            None
        }
    }

    open spec fn inv(&self) -> bool {
        self.wf()
    }

    /// Serves a resident archive from the cache; the cache itself performs
    /// no I/O, so a missing archive is a cache miss and the caller must
    /// supply the bytes through `load_bytes`.
    fn load(&mut self, path: &String) -> (r: Result<usize, AppError>) {
        proof {
            lemma_map_of_contains_key(self.pairs(), path@);
        }
        let position = self.position(path);
        match position {
            Some(i) => {
                proof {
                    lemma_map_of_index(self.pairs(), i as int);
                }
                Ok(self.books[i].1.len())
            },
            None => Err(AppError::CacheMiss),
        }
    }

    fn get(&self, path: &String, index: usize) -> (r: Option<Vec<u8>>) {
        proof {
            lemma_map_of_contains_key(self.pairs(), path@);
        }
        let position = self.position(path);
        match position {
            Some(i) => {
                proof {
                    lemma_map_of_index(self.pairs(), i as int);
                }
                if index < self.books[i].1.len() {
                    proof {
                        assert(self.books@[i as int].1@[index as int]@
                            == self.cache()[path@][index as int]);
                    }
                    Some(copy_bytes(&self.books[i].1[index]))
                } else {
                    None
                }
            },
            None => None,
        }
    }

    fn list(&self, path: &String) -> (r: Option<Vec<Vec<u8>>>) {
        proof {
            lemma_map_of_contains_key(self.pairs(), path@);
        }
        let position = self.position(path);
        match position {
            Some(i) => {
                proof {
                    lemma_map_of_index(self.pairs(), i as int);
                }
                let ghost pages = self.cache()[path@];
                let mut out: Vec<Vec<u8>> = Vec::new();
                let mut k: usize = 0;
                while k < self.books[i].1.len()
                    invariant
                        i < self.books@.len(),
                        k <= self.books@[i as int].1@.len(),
                        pages == self.pairs()[i as int].1,
                        pages.len() == self.books@[i as int].1@.len(),
                        out@.len() == k,
                        forall|q: int| 0 <= q < k ==> #[trigger] out@[q]@ == pages[q],
                    decreases self.books@[i as int].1@.len() - k,
                {
                    let page = copy_bytes(&self.books[i].1[k]);
                    proof {
                        assert(self.books@[i as int].1@[k as int]@ == pages[k as int]);
                    }
                    out.push(page);
                    k = k + 1;
                }
                proof {
                    assert(out@.map_values(|p: Vec<u8>| p@) =~= pages);
                }
                Some(out)
            },
            None => None,
        }
    }

    fn get_dimensions(&self, path: &String) -> (r: Result<Vec<(u32, u32)>, AppError>) {
        self.dimensions(path)
    }
}

} // verus!
