//! The orchestration facade: the operations the presentation layer calls,
//! composed from the library index, the page cache and the orchestrator.
//! Everything here computes over plain values; the surrounding application
//! performs the file reads and writes these operations ask for.

use vstd::prelude::*;
use crate::assoc::map_of;
use crate::cbz::CBZReader;
use crate::errors::AppError;
use crate::library::{Library, LibraryEntry};
use crate::metafile::{Metadata, MetadataV, Metafile};
use crate::orchestrator::Orchestrator;
use crate::sidecar::sp_enc_metafile;
use crate::text::{join_path, path_join};

verus! {

/// The media categories the facade understands.
#[derive(Clone, Copy, PartialEq, Eq, Structural, Debug)]
pub enum Category {
    Manga,
}

/// A file size as the search index reports it, in hundredths of the unit.
#[derive(Clone, Copy, PartialEq, Eq, Structural, Debug)]
pub enum FileSize {
    MiB(u64),
    GiB(u64),
}

/// Where a result listing stands within the index's pagination.
#[derive(Clone, Copy, PartialEq, Eq, Structural, Debug)]
pub struct PaginationInfo {
    pub min_page: u32,
    pub max_page: u32,
    pub has_prev: bool,
    pub has_next: bool,
}

/// One search hit of the source's index.
pub struct MediaInfo {
    pub id: String,
    pub category: Category,
    pub title: String,
    pub size: FileSize,
    pub timestamp: u64,
    pub seeders: u32,
    pub leechers: u32,
    pub completed: u32,
}

/// Mathematical value of a [`MediaInfo`].
#[verifier::ext_equal]
pub struct MediaInfoV {
    pub id: Seq<char>,
    pub category: Category,
    pub title: Seq<char>,
    pub size: FileSize,
    pub timestamp: u64,
    pub seeders: u32,
    pub leechers: u32,
    pub completed: u32,
}

impl View for MediaInfo {
    type V = MediaInfoV;

    open spec fn view(&self) -> MediaInfoV {
        MediaInfoV {
            id: self.id@,
            category: self.category,
            title: self.title@,
            size: self.size,
            timestamp: self.timestamp,
            seeders: self.seeders,
            leechers: self.leechers,
            completed: self.completed,
        }
    }
}

/// One search hit paired with the metadata resolved for its title, if any.
pub struct SearchResult {
    pub media_info: MediaInfo,
    pub metadata: Option<Metadata>,
}

/// Mathematical value of a [`SearchResult`].
#[verifier::ext_equal]
pub struct SearchResultV {
    pub media_info: MediaInfoV,
    pub metadata: Option<MetadataV>,
}

impl View for SearchResult {
    type V = SearchResultV;

    open spec fn view(&self) -> SearchResultV {
        SearchResultV {
            media_info: self.media_info@,
            metadata: match self.metadata {
                Some(m) => Some(m@),
                None => None,
            },
        }
    }
}

/// A full search answer: the hits with their metadata, plus pagination.
pub struct SearchResponse {
    pub search_results: Vec<SearchResult>,
    pub pagination: PaginationInfo,
}

/// Pairs each search hit with the metadata resolved for it, in order.
pub fn assemble_search_response(
    media: Vec<MediaInfo>,
    metadata: Vec<Option<Metadata>>,
    pagination: PaginationInfo,
) -> (r: SearchResponse)
    requires
        media@.len() == metadata@.len(),
    ensures
        r.pagination == pagination,
        r.search_results@.len() == media@.len(),
        forall|i: int|
            0 <= i < media@.len() ==> (#[trigger] r.search_results@[i])@.media_info == media@[i]@
                && r.search_results@[i]@.metadata == (match metadata@[i] {
                Some(m) => Some(m@),
                None => None::<MetadataV>,
            }),
{
    let mut media = media;
    let mut metadata = metadata;
    let ghost media_v = media@;
    let ghost metadata_v = metadata@;
    let mut search_results: Vec<SearchResult> = Vec::new();
    let n = media.len();
    let mut i: usize = 0;
    while i < n
        invariant
            i <= n,
            n == media_v.len(),
            media_v.len() == metadata_v.len(),
            media@ == media_v.skip(i as int),
            metadata@ == metadata_v.skip(i as int),
            search_results@.len() == i,
            forall|j: int|
                0 <= j < i ==> (#[trigger] search_results@[j])@.media_info == media_v[j]@
                    && search_results@[j]@.metadata == (match metadata_v[j] {
                    Some(m) => Some(m@),
                    None => None::<MetadataV>,
                }),
        decreases n - i,
    {
        let m = media.remove(0);
        let md = metadata.remove(0);
        proof {
            assert(media_v.skip(i as int)[0] == media_v[i as int]);
            assert(metadata_v.skip(i as int)[0] == metadata_v[i as int]);
            assert(media_v.skip(i as int).remove(0) =~= media_v.skip(i + 1));
            assert(metadata_v.skip(i as int).remove(0) =~= metadata_v.skip(i + 1));
        }
        search_results.push(SearchResult { media_info: m, metadata: md });
        i = i + 1;
    }
    SearchResponse { search_results, pagination }
}

/// What a page-archive load needs next: either the archive was already
/// resident with this page count, or the caller must read these bytes from
/// disk and hand them back.
pub enum CbzLoad {
    Loaded(usize),
    NeedsBytes(String),
}

/// The verified core of the application: the library index, the page cache
/// and the download orchestrator, with the operations the presentation
/// layer calls.
pub struct AppCore {
    pub library: Library,
    pub reader: CBZReader,
    pub orchestrator: Orchestrator,
}

impl AppCore {
    /// All three components are well-formed.
    pub open spec fn wf(&self) -> bool {
        &&& self.library.wf()
        &&& self.reader.wf()
        &&& self.orchestrator.wf()
    }

    /// Assembles the core from a rebuilt library and orchestrator, with an
    /// empty page cache.
    pub fn new(library: Library, orchestrator: Orchestrator) -> (r: AppCore)
        requires
            library.wf(),
            orchestrator.wf(),
        ensures
            r.wf(),
            r.library == library,
            r.orchestrator == orchestrator,
            r.reader.cache() == Map::<Seq<char>, Seq<Seq<u8>>>::empty(),
    {
        AppCore { library, reader: CBZReader::new(), orchestrator }
    }

    /// The on-disk path of one file of one item.
    fn file_path(&self, id: &str, file_num: usize) -> (r: Result<String, AppError>)
        requires
            self.wf(),
        ensures
            match r {
                Ok(path) => ({
                    let e = self.library.as_map()[id@];
                    &&& self.library.as_map().contains_key(id@)
                    &&& file_num < e.files.len()
                    &&& path@ == path_join(e.output_dir, e.files[file_num as int])
                }),
                Err(err) => ({
                    &&& (err == AppError::MissingEntry <==> !self.library.as_map().contains_key(
                        id@,
                    ))
                    &&& (err == AppError::BadFileIndex <==> self.library.as_map().contains_key(id@)
                        && file_num >= self.library.as_map()[id@].files.len())
                }),
            },
            (self.library.as_map().contains_key(id@) && file_num < self.library.as_map()[
                id@
            ].files.len()) ==> r is Ok,
    {
        let entry = match self.library.get_entry(id) {
            Some(e) => e,
            None => {
                return Err(AppError::MissingEntry);
            },
        };
        if file_num >= entry.files.len() {
            return Err(AppError::BadFileIndex);
        }
        Ok(join_path(&entry.output_dir, &entry.files[file_num]))
    }

    /// Begins loading a page archive: a resident archive answers its page
    /// count at once, without touching the file again; otherwise the caller
    /// is asked to read the archive's bytes from the returned path.
    pub fn load_cbz(&self, id: &str, file_num: usize) -> (r: Result<CbzLoad, AppError>)
        requires
            self.wf(),
        ensures
            match r {
                Ok(out) => ({
                    let e = self.library.as_map()[id@];
                    let path = path_join(e.output_dir, e.files[file_num as int]);
                    &&& self.library.as_map().contains_key(id@)
                    &&& file_num < e.files.len()
                    &&& match out {
                        CbzLoad::Loaded(n) => self.reader.cache().contains_key(path) && n
                            == self.reader.cache()[path].len(),
                        CbzLoad::NeedsBytes(p) => p@ == path && !self.reader.cache().contains_key(
                            path,
                        ),
                    }
                }),
                Err(err) => ({
                    &&& (err == AppError::MissingEntry <==> !self.library.as_map().contains_key(
                        id@,
                    ))
                    &&& (err == AppError::BadFileIndex <==> self.library.as_map().contains_key(id@)
                        && file_num >= self.library.as_map()[id@].files.len())
                }),
            },
            (self.library.as_map().contains_key(id@) && file_num < self.library.as_map()[
                id@
            ].files.len()) ==> r is Ok,
    {
        let path = match self.file_path(id, file_num) {
            Ok(p) => p,
            Err(e) => {
                return Err(e);
            },
        };
        if self.reader.is_loaded(&path) {
            match self.reader.page_count(&path) {
                Ok(n) => Ok(CbzLoad::Loaded(n)),
                Err(e) => Err(e),
            }
        } else {
            Ok(CbzLoad::NeedsBytes(path))
        }
    }

    /// Finishes loading a page archive from the bytes the caller read, and
    /// answers the page count.
    pub fn load_cbz_bytes(&mut self, id: &str, file_num: usize, bytes: &Vec<u8>) -> (r: Result<
        usize,
        AppError,
    >)
        requires
            old(self).wf(),
        ensures
            final(self).wf(),
            final(self).library == old(self).library,
            final(self).orchestrator == old(self).orchestrator,
            match r {
                Ok(n) => ({
                    let e = old(self).library.as_map()[id@];
                    let path = path_join(e.output_dir, e.files[file_num as int]);
                    &&& old(self).library.as_map().contains_key(id@)
                    &&& file_num < e.files.len()
                    &&& crate::cbz::zip_entries_of(bytes@) matches Some(entries) && n
                        == entries.len() && final(self).reader.cache() == old(
                        self,
                    ).reader.cache().insert(path, entries)
                }),
                Err(err) => ({
                    let m = old(self).library.as_map();
                    &&& final(self).reader.cache() == old(self).reader.cache()
                    &&& (err == AppError::MissingEntry <==> !m.contains_key(id@))
                    &&& (err == AppError::BadFileIndex <==> m.contains_key(id@) && file_num >= m[
                        id@
                    ].files.len())
                    &&& (err == AppError::BadArchive <==> m.contains_key(id@) && file_num < m[
                        id@
                    ].files.len() && crate::cbz::zip_entries_of(bytes@) is None)
                }),
            },
            (old(self).library.as_map().contains_key(id@) && file_num < old(
                self,
            ).library.as_map()[id@].files.len() && crate::cbz::zip_entries_of(bytes@) is Some)
                ==> r is Ok,
    {
        let path = match self.file_path(id, file_num) {
            Ok(p) => p,
            Err(e) => {
                return Err(e);
            },
        };
        self.reader.load_bytes(&path, bytes)
    }

    /// One page's bytes, from the cache.
    pub fn get_page(&self, id: &str, file_num: usize, page_num: usize) -> (r: Result<
        Vec<u8>,
        AppError,
    >)
        requires
            self.wf(),
        ensures
            match r {
                Ok(page) => ({
                    let e = self.library.as_map()[id@];
                    let path = path_join(e.output_dir, e.files[file_num as int]);
                    &&& self.library.as_map().contains_key(id@)
                    &&& file_num < e.files.len()
                    &&& self.reader.cache().contains_key(path)
                    &&& page_num < self.reader.cache()[path].len()
                    &&& page@ == self.reader.cache()[path][page_num as int]
                }),
                Err(err) => ({
                    let m = self.library.as_map();
                    let path = path_join(m[id@].output_dir, m[id@].files[file_num as int]);
                    &&& (err == AppError::MissingEntry <==> !m.contains_key(id@))
                    &&& (err == AppError::BadFileIndex <==> m.contains_key(id@) && file_num >= m[
                        id@
                    ].files.len())
                    &&& (err == AppError::CacheMiss <==> m.contains_key(id@) && file_num < m[
                        id@
                    ].files.len() && !self.reader.cache().contains_key(path))
                    &&& (err == AppError::BadPageIndex <==> m.contains_key(id@) && file_num < m[
                        id@
                    ].files.len() && self.reader.cache().contains_key(path) && page_num
                        >= self.reader.cache()[path].len())
                }),
            },
            ({
                let m = self.library.as_map();
                let path = path_join(m[id@].output_dir, m[id@].files[file_num as int]);
                m.contains_key(id@) && file_num < m[id@].files.len()
                    && self.reader.cache().contains_key(path) && page_num < self.reader.cache()[
                    path
                ].len()
            }) ==> r is Ok,
    {
        let path = match self.file_path(id, file_num) {
            Ok(p) => p,
            Err(e) => {
                return Err(e);
            },
        };
        if !self.reader.is_loaded(&path) {
            return Err(AppError::CacheMiss);
        }
        match crate::reader::Reader::get(&self.reader, &path, page_num) {
            Some(page) => Ok(page),
            None => Err(AppError::BadPageIndex),
        }
    }

    /// The pixel dimensions of every page of one loaded file.
    pub fn get_dimensions(&self, id: &str, file_num: usize) -> (r: Result<
        Vec<(u32, u32)>,
        AppError,
    >)
        requires
            self.wf(),
        ensures
            match r {
                Ok(dims) => ({
                    let e = self.library.as_map()[id@];
                    let path = path_join(e.output_dir, e.files[file_num as int]);
                    &&& self.library.as_map().contains_key(id@)
                    &&& file_num < e.files.len()
                    &&& self.reader.cache().contains_key(path)
                    &&& dims@.len() == self.reader.cache()[path].len()
                    &&& forall|i: int|
                        0 <= i < dims@.len() ==> #[trigger] dims@[i] == crate::cbz::dims_of(
                            self.reader.cache()[path][i],
                        )
                }),
                Err(err) => ({
                    let m = self.library.as_map();
                    &&& (err == AppError::MissingEntry <==> !m.contains_key(id@))
                    &&& (err == AppError::BadFileIndex <==> m.contains_key(id@) && file_num >= m[
                        id@
                    ].files.len())
                    &&& (err == AppError::CacheMiss <==> m.contains_key(id@) && file_num < m[
                        id@
                    ].files.len() && !self.reader.cache().contains_key(
                        path_join(m[id@].output_dir, m[id@].files[file_num as int]),
                    ))
                }),
            },
            ({
                let m = self.library.as_map();
                m.contains_key(id@) && file_num < m[id@].files.len()
                    && self.reader.cache().contains_key(
                    path_join(m[id@].output_dir, m[id@].files[file_num as int]),
                )
            }) ==> r is Ok,
    {
        let path = match self.file_path(id, file_num) {
            Ok(p) => p,
            Err(e) => {
                return Err(e);
            },
        };
        self.reader.dimensions(&path)
    }

    /// Updates one file's reading position. When the sidecar record changed,
    /// the entry's directory and the record's new encoding come back so the
    /// caller can persist it; `None` means nothing changed and nothing needs
    /// writing.
    pub fn update_reading_progress(&mut self, id: &str, file_num: usize, updated_page: usize) -> (
        r: Result<Option<(String, Vec<char>)>, AppError>)
        requires
            old(self).wf(),
        ensures
            final(self).wf(),
            final(self).orchestrator == old(self).orchestrator,
            match r {
                Ok(out) => ({
                    &&& old(self).library.as_map().contains_key(id@)
                    &&& final(self).library.as_map().contains_key(id@)
                    &&& match out {
                        None => *final(self) == *old(self),
                        Some(payload) => ({
                            let e2 = final(self).library.as_map()[id@];
                            &&& payload.0@ == e2.output_dir
                            &&& payload.1@ == sp_enc_metafile(e2.metafile)
                            &&& map_of(e2.metafile.reading_progress).contains_key(
                                e2.files[file_num as int],
                            )
                            &&& map_of(e2.metafile.reading_progress)[
                                e2.files[file_num as int]
                            ].current_page == updated_page
                        }),
                    }
                }),
                Err(err) => ({
                    let m = old(self).library.as_map();
                    &&& final(self).library == old(self).library
                    &&& (!m.contains_key(id@) ==> err == AppError::MissingEntry)
                    &&& (m.contains_key(id@) && file_num >= m[id@].files.len() ==> err
                        == AppError::BadFileIndex)
                    &&& (m.contains_key(id@) && file_num < m[id@].files.len() ==> !map_of(
                        m[id@].metafile.reading_progress,
                    ).contains_key(m[id@].files[file_num as int]))
                }),
            },
            ({
                let e = old(self).library.as_map()[id@];
                old(self).library.as_map().contains_key(id@) && file_num < e.files.len() && (
                map_of(e.metafile.reading_progress).contains_key(e.files[file_num as int]) || old(
                    self,
                ).reader.cache().contains_key(
                    path_join(e.output_dir, e.files[file_num as int]),
                ))
            }) ==> r is Ok,
    {
        let changed = match self.library.update_reading_progress(
            id,
            file_num,
            updated_page,
            &mut self.reader,
        ) {
            Ok(c) => c,
            Err(e) => {
                return Err(e);
            },
        };
        if !changed {
            return Ok(None);
        }
        proof {
            let e0 = old(self).library.as_map()[id@];
            let pm = e0.metafile.reading_progress;
            let filename = e0.files[file_num as int];
            crate::assoc::lemma_map_of_contains_key(old(self).library.entry_pairs(), id@);
            let i = choose|i: int|
                0 <= i < old(self).library.entry_pairs().len() && old(
                    self,
                ).library.entry_pairs()[i].0 == id@;
            crate::assoc::lemma_map_of_index(old(self).library.entry_pairs(), i);
            assert(crate::assoc::distinct_keys(pm));
            if map_of(pm).contains_key(filename) {
                crate::library::lemma_progress_update_idempotent(
                    pm,
                    filename,
                    crate::metafile::ReadingProgress {
                        current_page: updated_page,
                        total_pages: map_of(pm)[filename].total_pages,
                    },
                );
            } else {
                let path = path_join(e0.output_dir, filename);
                let pages = self.reader.cache()[path];
                crate::library::lemma_progress_update_idempotent(
                    pm,
                    filename,
                    crate::metafile::ReadingProgress {
                        current_page: updated_page,
                        total_pages: pages.len() as usize,
                    },
                );
            }
        }
        let entry = match self.library.get_entry(id) {
            Some(e) => e,
            None => {
                return Err(AppError::MissingEntry);
            },
        };
        let encoded = entry.metafile.encode();
        Ok(Some((entry.output_dir, encoded)))
    }

    /// Catalogues a finished download: inserts the library entry and hands
    /// back the encoding of its sidecar record, for the caller to persist
    /// beside the downloaded files.
    pub fn finish_download(
        &mut self,
        metafile: Metafile,
        output_dir: String,
        files: Vec<String>,
    ) -> (r: Vec<char>)
        requires
            old(self).wf(),
            metafile.wf(),
        ensures
            final(self).wf(),
            final(self).reader == old(self).reader,
            final(self).orchestrator == old(self).orchestrator,
            r@ == sp_enc_metafile(metafile@),
            final(self).library.as_map() == old(self).library.as_map().insert(
                metafile@.source.id,
                (crate::library::LibraryEntryV {
                    name: crate::text::base_name(output_dir@),
                    metafile: metafile@,
                    output_dir: output_dir@,
                    files: crate::library::content_files_spec(
                        crate::metafile::view_str_vec(files),
                    ),
                }),
            ),
    {
        let encoded = metafile.encode();
        self.library.add_entry(metafile, output_dir, files);
        encoded
    }

    /// Removes an item from the catalog and hands back the directory the
    /// caller must delete from disk.
    pub fn delete(&mut self, id: &str) -> (r: Result<String, AppError>)
        requires
            old(self).wf(),
        ensures
            final(self).wf(),
            final(self).reader == old(self).reader,
            final(self).orchestrator == old(self).orchestrator,
            match r {
                Ok(dir) => old(self).library.as_map().contains_key(id@) && dir@ == old(
                    self,
                ).library.as_map()[id@].output_dir && final(self).library.as_map() == old(
                    self,
                ).library.as_map().remove(id@),
                Err(err) => err == AppError::MissingEntry && !old(
                    self,
                ).library.as_map().contains_key(id@) && final(self).library == old(self).library,
            },
    {
        match self.library.delete(id) {
            Ok(entry) => Ok(entry.output_dir),
            Err(e) => Err(e),
        }
    }
}

} // verus!
