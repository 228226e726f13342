//! The library index: the in-memory catalog of completed downloads, keyed by
//! item id, with per-item reading progress. It is rebuilt at startup from a
//! scan of the download root and mutated by add/delete/update operations; a
//! mutating operation reports whether the sidecar record changed, so the
//! caller knows to persist it.

use vstd::prelude::*;
use crate::assoc::{
    distinct_keys, lemma_map_of_contains_key, lemma_map_of_index, lemma_map_of_push,
    lemma_map_of_remove, lemma_map_of_update, lemma_remove_assoc_at, lemma_set_assoc_idempotent,
    lemma_set_assoc_push, lemma_set_assoc_update, map_of, remove_assoc, set_assoc,
};
use crate::errors::AppError;
use crate::metafile::{
    view_str_vec, LibraryEntrySettings, Metadata, MetadataV, Metafile, MetafileV, ReadingProgress,
    SourceMetaV,
};
use crate::reader::Reader;
use crate::sidecar::sp_decode_metafile;
use crate::text::{
    base_name, base_name_of, dir_name, dir_name_of, ends_with, insert_sorted, join_path,
    path_join, sort_strs, str_ends_with, str_eq, str_le,
};

verus! {

// ---------------------------------------------------------------------------
// Content file listings
// ---------------------------------------------------------------------------

/// A directory entry that belongs to the item's content: not the sidecar
/// record and not a leftover download-control file.
pub open spec fn is_content_name(f: Seq<char>) -> bool {
    f != ".meta"@ && !ends_with(f, ".torrent"@)
}

/// The content names of a listing, in listing order.
pub open spec fn filter_content(l: Seq<Seq<char>>) -> Seq<Seq<char>>
    decreases l.len(),
{
    if l.len() == 0 {
        l
    } else if is_content_name(l.last()) {
        filter_content(l.drop_last()).push(l.last())
    } else {
        filter_content(l.drop_last())
    }
}

/// The content names of a listing, sorted.
pub open spec fn content_files_spec(l: Seq<Seq<char>>) -> Seq<Seq<char>> {
    sort_strs(filter_content(l))
}

/// Whether `f` is a content file name.
fn is_content_file(f: &String) -> (r: bool)
    ensures
        r == is_content_name(f@),
{
    let not_meta = !str_eq(f.as_str(), ".meta");
    let not_torrent = !str_ends_with(f.as_str(), ".torrent");
    not_meta && not_torrent
}

/// Inserts `x` into a vector sorted by `str_le`, keeping it sorted.
fn sorted_insert(v: &mut Vec<String>, x: String)
    ensures
        view_str_vec(*final(v)) == insert_sorted(x@, view_str_vec(*old(v))),
{
    let ghost w = view_str_vec(*old(v));
    let mut p: usize = 0;
    while p < v.len() && !str_le(&x, &v[p])
        invariant
            p <= v@.len(),
            w == view_str_vec(*v),
            w.len() == v@.len(),
            forall|j: int| 0 <= j < p ==> !crate::text::seq_char_le(x@, #[trigger] w[j]),
        decreases v@.len() - p,
    {
        p = p + 1;
    }
    proof {
        crate::text::lemma_insert_sorted_at(x@, w, p as int);
    }
    v.insert(p, x);
    proof {
        assert(view_str_vec(*v) =~= w.take(p as int) + seq![x@] + w.skip(p as int));
    }
}

/// The sorted content names of a directory listing.
pub fn content_files(files: Vec<String>) -> (r: Vec<String>)
    ensures
        view_str_vec(r) == content_files_spec(view_str_vec(files)),
{
    let ghost l = view_str_vec(files);
    let mut kept: Vec<String> = Vec::new();
    let mut i: usize = 0;
    while i < files.len()
        invariant
            i <= files@.len(),
            l == view_str_vec(files),
            l.len() == files@.len(),
            view_str_vec(kept) == filter_content(l.take(i as int)),
        decreases files@.len() - i,
    {
        proof {
            assert(l.take(i + 1).drop_last() =~= l.take(i as int));
            assert(l.take(i + 1).last() == l[i as int]);
        }
        let f = files[i].clone();
        let ghost kept_before = view_str_vec(kept);
        if is_content_file(&f) {
            kept.push(f);
            proof {
                assert(view_str_vec(kept) =~= kept_before.push(l[i as int]));
            }
        }
        i = i + 1;
    }
    proof {
        assert(l.take(l.len() as int) =~= l);
    }
    let ghost filtered = view_str_vec(kept);
    let mut r: Vec<String> = Vec::new();
    let mut j: usize = 0;
    while j < kept.len()
        invariant
            j <= kept@.len(),
            filtered == view_str_vec(kept),
            filtered.len() == kept@.len(),
            view_str_vec(r) == sort_strs(filtered.take(j as int)),
        decreases kept@.len() - j,
    {
        proof {
            assert(filtered.take(j + 1).drop_last() =~= filtered.take(j as int));
            assert(filtered.take(j + 1).last() == filtered[j as int]);
        }
        sorted_insert(&mut r, kept[j].clone());
        j = j + 1;
    }
    proof {
        assert(filtered.take(filtered.len() as int) =~= filtered);
    }
    r
}

// ---------------------------------------------------------------------------
// Entries
// ---------------------------------------------------------------------------

/// One catalogued item: its display name, sidecar record, on-disk location
/// and sorted content file list.
pub struct LibraryEntry {
    pub name: String,
    pub metafile: Metafile,
    pub output_dir: String,
    pub files: Vec<String>,
}

/// Mathematical value of a [`LibraryEntry`].
#[verifier::ext_equal]
pub struct LibraryEntryV {
    pub name: Seq<char>,
    pub metafile: MetafileV,
    pub output_dir: Seq<char>,
    pub files: Seq<Seq<char>>,
}

impl View for LibraryEntry {
    type V = LibraryEntryV;

    open spec fn view(&self) -> LibraryEntryV {
        LibraryEntryV {
            name: self.name@,
            metafile: self.metafile@,
            output_dir: self.output_dir@,
            files: view_str_vec(self.files),
        }
    }
}

/// An entry's sidecar record has distinct progress filenames.
pub open spec fn entry_wf(e: LibraryEntryV) -> bool {
    distinct_keys(e.metafile.reading_progress)
}

impl LibraryEntry {
    /// The record invariant, on the concrete value.
    pub open spec fn wf(&self) -> bool {
        entry_wf(self@)
    }
}

impl Clone for LibraryEntry {
    fn clone(&self) -> (r: Self)
        ensures
            r@ == self@,
    {
        let mut files: Vec<String> = Vec::new();
        let mut i: usize = 0;
        while i < self.files.len()
            invariant
                i <= self.files@.len(),
                files@.len() == i,
                forall|j: int| 0 <= j < i ==> #[trigger] files@[j]@ == self.files@[j]@,
            decreases self.files@.len() - i,
        {
            files.push(self.files[i].clone());
            i = i + 1;
        }
        let r = LibraryEntry {
            name: self.name.clone(),
            metafile: self.metafile.clone(),
            output_dir: self.output_dir.clone(),
            files,
        };
        proof {
            assert(view_str_vec(r.files) =~= view_str_vec(self.files));
            assert(r@ =~= self@);
        }
        r
    }
}

/// One scanned subdirectory of the library root: its name, its path, the
/// text of its sidecar record if one could be read, and its file listing.
pub struct DirScan {
    pub name: String,
    pub output_dir: String,
    pub meta_content: Option<String>,
    pub files: Vec<String>,
}

/// Mathematical value of a [`DirScan`].
#[verifier::ext_equal]
pub struct DirScanV {
    pub name: Seq<char>,
    pub output_dir: Seq<char>,
    pub meta_content: Option<Seq<char>>,
    pub files: Seq<Seq<char>>,
}

impl View for DirScan {
    type V = DirScanV;

    open spec fn view(&self) -> DirScanV {
        DirScanV {
            name: self.name@,
            output_dir: self.output_dir@,
            meta_content: crate::metafile::view_opt_str(self.meta_content),
            files: view_str_vec(self.files),
        }
    }
}

/// The entry a scanned directory yields once its record decodes.
pub open spec fn entry_of_scan(d: DirScanV, mf: MetafileV) -> LibraryEntryV {
    LibraryEntryV {
        name: d.name,
        metafile: mf,
        output_dir: d.output_dir,
        files: content_files_spec(d.files),
    }
}

/// The catalog a scan denotes: every directory whose sidecar record decodes
/// contributes an entry under its record's item id; the others are skipped.
pub open spec fn scans_to_map(ss: Seq<DirScanV>) -> Map<Seq<char>, LibraryEntryV>
    decreases ss.len(),
{
    if ss.len() == 0 {
        Map::empty()
    } else {
        let m = scans_to_map(ss.drop_last());
        let d = ss.last();
        match d.meta_content {
            Some(content) => match sp_decode_metafile(content) {
                Some(mf) => m.insert(mf.source.id, entry_of_scan(d, mf)),
                None => m,
            },
            None => m,
        }
    }
}

// ---------------------------------------------------------------------------
// The index itself
// ---------------------------------------------------------------------------

/// The in-memory catalog of completed downloads, keyed by item id.
pub struct Library {
    pub entries: Vec<LibraryEntry>,
}

impl Library {
    /// The id/entry pairs, in storage order.
    pub open spec fn entry_pairs(&self) -> Seq<(Seq<char>, LibraryEntryV)> {
        self.entries@.map_values(|e: LibraryEntry| (e@.metafile.source.id, e@))
    }

    /// The catalog as a finite map.
    pub open spec fn as_map(&self) -> Map<Seq<char>, LibraryEntryV> {
        map_of(self.entry_pairs())
    }

    /// Item ids are distinct and every entry's record is well-formed.
    pub open spec fn wf(&self) -> bool {
        &&& distinct_keys(self.entry_pairs())
        &&& forall|i: int| 0 <= i < self.entries@.len() ==> (#[trigger] self.entries@[i]).wf()
    }

    /// Index of the entry under `id`, if any.
    fn position(&self, id: &String) -> (r: Option<usize>)
        ensures
            match r {
                Some(i) => i < self.entry_pairs().len() && self.entry_pairs()[i as int].0 == id@,
                None => forall|i: int|
                    0 <= i < self.entry_pairs().len() ==> self.entry_pairs()[i].0 != id@,
            },
    {
        let mut i: usize = 0;
        while i < self.entries.len()
            invariant
                i <= self.entries@.len(),
                self.entry_pairs().len() == self.entries@.len(),
                forall|j: int| 0 <= j < i ==> self.entry_pairs()[j].0 != id@,
            decreases self.entries@.len() - i,
        {
            if self.entries[i].metafile.source.id == *id {
                return Some(i);
            }
            i = i + 1;
        }
        None
    }

    /// Inserts or replaces the entry under its own item id.
    fn insert_entry(&mut self, e: LibraryEntry)
        requires
            old(self).wf(),
            e.wf(),
        ensures
            final(self).wf(),
            final(self).entry_pairs() == set_assoc(
                old(self).entry_pairs(),
                e@.metafile.source.id,
                e@,
            ),
            final(self).as_map() == old(self).as_map().insert(e@.metafile.source.id, e@),
    {
        let ghost k = e@.metafile.source.id;
        let position = self.position(&e.metafile.source.id);
        match position {
            Some(i) => {
                proof {
                    lemma_set_assoc_update(self.entry_pairs(), i as int, e@);
                    lemma_map_of_update(self.entry_pairs(), i as int, e@);
                }
                self.entries.set(i, e);
                proof {
                    assert(self.entry_pairs() =~= old(self).entry_pairs().update(
                        i as int,
                        (k, e@),
                    ));
                }
            },
            None => {
                proof {
                    lemma_set_assoc_push(self.entry_pairs(), k, e@);
                    lemma_map_of_push(self.entry_pairs(), k, e@);
                }
                self.entries.push(e);
                proof {
                    assert(self.entry_pairs() =~= old(self).entry_pairs().push((k, e@)));
                    assert forall|a: int, b: int|
                        0 <= a < b < self.entry_pairs().len() implies self.entry_pairs()[a].0
                        != self.entry_pairs()[b].0 by {
                        if b == self.entry_pairs().len() - 1 {
                            assert(self.entry_pairs()[a].0 != k);
                        }
                    }
                }
            },
        }
    }

    /// Builds the catalog from a scan of the library root. A directory whose
    /// sidecar record is missing or does not decode is skipped, so one
    /// damaged item never stops startup.
    pub fn new(scans: Vec<DirScan>) -> (r: Library)
        ensures
            r.wf(),
            r.as_map() == scans_to_map(scans@.map_values(|d: DirScan| d@)),
    {
        let ghost sv = scans@.map_values(|d: DirScan| d@);
        let mut lib = Library { entries: Vec::new() };
        proof {
            assert(lib.entry_pairs() =~= Seq::<(Seq<char>, LibraryEntryV)>::empty());
            assert(lib.as_map() =~= Map::<Seq<char>, LibraryEntryV>::empty());
            assert(sv.take(0) =~= Seq::<DirScanV>::empty());
        }
        let mut i: usize = 0;
        while i < scans.len()
            invariant
                i <= scans@.len(),
                sv == scans@.map_values(|d: DirScan| d@),
                sv.len() == scans@.len(),
                lib.wf(),
                lib.as_map() == scans_to_map(sv.take(i as int)),
            decreases scans@.len() - i,
        {
            proof {
                assert(sv.take(i + 1).drop_last() =~= sv.take(i as int));
                assert(sv.take(i + 1).last() == sv[i as int]);
            }
            let scan = &scans[i];
            match &scan.meta_content {
                Some(content) => {
                    let chars = crate::text::chars_of(content.as_str());
                    match Metafile::decode(&chars) {
                        Some(mf) => {
                            let name = scan.name.clone();
                            let output_dir = scan.output_dir.clone();
                            let mut files: Vec<String> = Vec::new();
                            let mut j: usize = 0;
                            while j < scan.files.len()
                                invariant
                                    j <= scan.files@.len(),
                                    files@.len() == j,
                                    forall|q: int|
                                        0 <= q < j ==> #[trigger] files@[q]@ == scan.files@[q]@,
                                decreases scan.files@.len() - j,
                            {
                                files.push(scan.files[j].clone());
                                j = j + 1;
                            }
                            proof {
                                assert(view_str_vec(files) =~= view_str_vec(scan.files));
                            }
                            let sorted = content_files(files);
                            let e = LibraryEntry { name, metafile: mf, output_dir, files: sorted };
                            proof {
                                assert(e@ =~= entry_of_scan(sv[i as int], mf@));
                            }
                            lib.insert_entry(e);
                        },
                        None => {
                        },
                    }
                },
                None => {
                },
            }
            i = i + 1;
        }
        proof {
            assert(sv.take(sv.len() as int) =~= sv);
        }
        lib
    }

    /// Inserts or replaces the entry for `metafile`'s item, computing the
    /// entry's name from the output directory and its file list from the
    /// given listing.
    pub fn add_entry(&mut self, metafile: Metafile, output_dir: String, files: Vec<String>)
        requires
            old(self).wf(),
            metafile.wf(),
        ensures
            final(self).wf(),
            final(self).entry_pairs() == set_assoc(
                old(self).entry_pairs(),
                metafile@.source.id,
                LibraryEntryV {
                    name: base_name(output_dir@),
                    metafile: metafile@,
                    output_dir: output_dir@,
                    files: content_files_spec(view_str_vec(files)),
                },
            ),
            final(self).as_map() == old(self).as_map().insert(
                metafile@.source.id,
                LibraryEntryV {
                    name: base_name(output_dir@),
                    metafile: metafile@,
                    output_dir: output_dir@,
                    files: content_files_spec(view_str_vec(files)),
                },
            ),
    {
        let name = base_name_of(&output_dir);
        let sorted = content_files(files);
        let e = LibraryEntry { name, metafile, output_dir, files: sorted };
        self.insert_entry(e);
    }

    /// The entry under `id`, if any.
    pub fn get_entry(&self, id: &str) -> (r: Option<LibraryEntry>)
        requires
            self.wf(),
        ensures
            match r {
                Some(e) => self.as_map().contains_key(id@) && e@ == self.as_map()[id@] && e.wf(),
                None => !self.as_map().contains_key(id@),
            },
    {
        let id_owned = id.to_owned();
        proof {
            lemma_map_of_contains_key(self.entry_pairs(), id@);
        }
        let position = self.position(&id_owned);
        match position {
            Some(i) => {
                proof {
                    lemma_map_of_index(self.entry_pairs(), i as int);
                }
                Some(self.entries[i].clone())
            },
            None => None,
        }
    }

    /// Every entry, in storage order.
    pub fn get_entries(&self) -> (r: Vec<LibraryEntry>)
        ensures
            r@.len() == self.entry_pairs().len(),
            forall|i: int|
                0 <= i < r@.len() ==> #[trigger] r@[i]@ == self.entry_pairs()[i].1,
    {
        let mut r: Vec<LibraryEntry> = Vec::new();
        let mut i: usize = 0;
        while i < self.entries.len()
            invariant
                i <= self.entries@.len(),
                self.entry_pairs().len() == self.entries@.len(),
                r@.len() == i,
                forall|j: int| 0 <= j < i ==> #[trigger] r@[j]@ == self.entry_pairs()[j].1,
            decreases self.entries@.len() - i,
        {
            r.push(self.entries[i].clone());
            i = i + 1;
        }
        r
    }

    /// Removes the entry under `id` and hands it back, so the caller can
    /// delete its on-disk directory. Fails when no such entry exists.
    pub fn delete(&mut self, id: &str) -> (r: Result<LibraryEntry, AppError>)
        requires
            old(self).wf(),
        ensures
            final(self).wf(),
            match r {
                Ok(e) => old(self).as_map().contains_key(id@) && e@ == old(self).as_map()[id@]
                    && final(self).entry_pairs() == remove_assoc(old(self).entry_pairs(), id@)
                    && final(self).as_map() == old(self).as_map().remove(id@),
                Err(err) => err == AppError::MissingEntry && !old(self).as_map().contains_key(id@)
                    && *final(self) == *old(self),
            },
    {
        let id_owned = id.to_owned();
        proof {
            lemma_map_of_contains_key(self.entry_pairs(), id@);
        }
        let position = self.position(&id_owned);
        match position {
            Some(i) => {
                proof {
                    lemma_map_of_index(self.entry_pairs(), i as int);
                    lemma_map_of_remove(self.entry_pairs(), i as int);
                    lemma_remove_assoc_at(self.entry_pairs(), i as int);
                }
                let e = self.entries.remove(i);
                proof {
                    assert(self.entry_pairs() =~= old(self).entry_pairs().remove(i as int));
                }
                Ok(e)
            },
            None => Err(AppError::MissingEntry),
        }
    }

    /// Replaces the entry at position `i` with one carrying the same id.
    fn replace_entry_at(&mut self, i: usize, e: LibraryEntry)
        requires
            old(self).wf(),
            e.wf(),
            i < old(self).entries@.len(),
            e@.metafile.source.id == old(self).entry_pairs()[i as int].0,
        ensures
            final(self).wf(),
            final(self).entry_pairs() == set_assoc(
                old(self).entry_pairs(),
                e@.metafile.source.id,
                e@,
            ),
            final(self).as_map() == old(self).as_map().insert(e@.metafile.source.id, e@),
    {
        proof {
            lemma_set_assoc_update(self.entry_pairs(), i as int, e@);
            lemma_map_of_update(self.entry_pairs(), i as int, e@);
        }
        self.entries.set(i, e);
        proof {
            assert(self.entry_pairs() =~= old(self).entry_pairs().update(
                i as int,
                (e@.metafile.source.id, e@),
            ));
        }
    }

    /// Updates the stored reading position of one file of one item and
    /// reports whether the sidecar record changed. A call recording the page
    /// already stored is a no-op, so repeating an update writes nothing new.
    /// The total page count is resolved through `reader` only when the file
    /// has no progress record yet.
    pub fn update_reading_progress<R: Reader>(
        &mut self,
        id: &str,
        file_num: usize,
        updated_page: usize,
        reader: &mut R,
    ) -> (r: Result<bool, AppError>)
        requires
            old(self).wf(),
            old(reader).inv(),
        ensures
            final(self).wf(),
            final(reader).inv(),
            match r {
                Ok(changed) => ({
                    let e = old(self).as_map()[id@];
                    let filename = e.files[file_num as int];
                    let pm = e.metafile.reading_progress;
                    let had = map_of(pm).contains_key(filename);
                    let noop = had && map_of(pm)[filename].current_page == updated_page;
                    &&& old(self).as_map().contains_key(id@)
                    &&& file_num < e.files.len()
                    &&& changed == !noop
                    &&& (noop ==> *final(self) == *old(self) && *final(reader) == *old(reader))
                    &&& (!noop && had ==> *final(reader) == *old(reader)
                        && final(self).entry_pairs() == set_assoc(
                        old(self).entry_pairs(),
                        id@,
                        with_progress(
                            e,
                            set_assoc(
                                pm,
                                filename,
                                (ReadingProgress {
                                    current_page: updated_page,
                                    total_pages: map_of(pm)[filename].total_pages,
                                }),
                            ),
                        ),
                    ) && final(self).as_map() == old(self).as_map().insert(
                        id@,
                        with_progress(
                            e,
                            set_assoc(
                                pm,
                                filename,
                                (ReadingProgress {
                                    current_page: updated_page,
                                    total_pages: map_of(pm)[filename].total_pages,
                                }),
                            ),
                        ),
                    ))
                    &&& (!had ==> (final(reader).book(
                        path_join(e.output_dir, filename),
                    ) matches Some(pages) && pages.len() <= usize::MAX
                        && final(self).entry_pairs() == set_assoc(
                        old(self).entry_pairs(),
                        id@,
                        with_progress(
                            e,
                            set_assoc(
                                pm,
                                filename,
                                (ReadingProgress {
                                    current_page: updated_page,
                                    total_pages: pages.len() as usize,
                                }),
                            ),
                        ),
                    ) && final(self).as_map() == old(self).as_map().insert(
                        id@,
                        with_progress(
                            e,
                            set_assoc(
                                pm,
                                filename,
                                (ReadingProgress {
                                    current_page: updated_page,
                                    total_pages: pages.len() as usize,
                                }),
                            ),
                        ),
                    )))
                    &&& (!had && old(reader).book(path_join(e.output_dir, filename)) is Some
                        ==> (forall|q: Seq<char>|
                        final(reader).book(q) == old(reader).book(q)))
                }),
                Err(err) => ({
                    let m = old(self).as_map();
                    &&& *final(self) == *old(self)
                    &&& (!m.contains_key(id@) ==> err == AppError::MissingEntry)
                    &&& (m.contains_key(id@) && file_num >= m[id@].files.len() ==> err
                        == AppError::BadFileIndex)
                    &&& (m.contains_key(id@) && file_num < m[id@].files.len() ==> !map_of(
                        m[id@].metafile.reading_progress,
                    ).contains_key(m[id@].files[file_num as int]))
                    &&& (!(m.contains_key(id@) && file_num < m[id@].files.len()) ==> *final(reader)
                        == *old(reader))
                }),
            },
            ({
                let e = old(self).as_map()[id@];
                old(self).as_map().contains_key(id@) && file_num < e.files.len() && (map_of(
                    e.metafile.reading_progress,
                ).contains_key(e.files[file_num as int]) || old(reader).book(
                    path_join(e.output_dir, e.files[file_num as int]),
                ) is Some)
            }) ==> r is Ok,
    {
        let id_owned = id.to_owned();
        proof {
            lemma_map_of_contains_key(self.entry_pairs(), id@);
        }
        let position = self.position(&id_owned);
        let i = match position {
            Some(i) => i,
            None => {
                return Err(AppError::MissingEntry);
            },
        };
        proof {
            lemma_map_of_index(self.entry_pairs(), i as int);
        }
        if file_num >= self.entries[i].files.len() {
            return Err(AppError::BadFileIndex);
        }
        let filename = self.entries[i].files[file_num].clone();
        let existing = self.entries[i].metafile.reading_progress.get(&filename);
        match existing {
            Some(p) => {
                if p.current_page == updated_page {
                    return Ok(false);
                }
                let total: usize = p.total_pages;
                let mut e2 = self.entries[i].clone();
                proof {
                    assert(e2.wf());
                }
                e2.metafile.reading_progress.set(
                    &filename,
                    ReadingProgress { current_page: updated_page, total_pages: total },
                );
                proof {
                    assert(e2@ =~= with_progress(
                        old(self).as_map()[id@],
                        set_assoc(
                            old(self).as_map()[id@].metafile.reading_progress,
                            filename@,
                            ReadingProgress { current_page: updated_page, total_pages: total },
                        ),
                    ));
                }
                self.replace_entry_at(i, e2);
                proof {
                    let ghost e = old(self).as_map()[id@];
                    let ghost rp = ReadingProgress {
                        current_page: updated_page,
                        total_pages: total,
                    };
                    assert(self.entry_pairs() == set_assoc(
                        old(self).entry_pairs(),
                        id@,
                        with_progress(e, set_assoc(e.metafile.reading_progress, filename@, rp)),
                    ));
                }
                Ok(true)
            },
            None => {
                let path = join_path(&self.entries[i].output_dir, &filename);
                let loaded = reader.load(&path);
                match loaded {
                    Ok(total) => {
                        let mut e2 = self.entries[i].clone();
                        proof {
                            assert(e2.wf());
                        }
                        e2.metafile.reading_progress.set(
                            &filename,
                            ReadingProgress { current_page: updated_page, total_pages: total },
                        );
                        proof {
                            assert(e2@ =~= with_progress(
                                old(self).as_map()[id@],
                                set_assoc(
                                    old(self).as_map()[id@].metafile.reading_progress,
                                    filename@,
                                    ReadingProgress {
                                        current_page: updated_page,
                                        total_pages: total,
                                    },
                                ),
                            ));
                        }
                        self.replace_entry_at(i, e2);
                        proof {
                            let ghost e = old(self).as_map()[id@];
                            let ghost rp = ReadingProgress {
                                current_page: updated_page,
                                total_pages: total,
                            };
                            assert(self.entry_pairs() == set_assoc(
                                old(self).entry_pairs(),
                                id@,
                                with_progress(
                                    e,
                                    set_assoc(e.metafile.reading_progress, filename@, rp),
                                ),
                            ));
                            assert(reader.book(path_join(e.output_dir, filename@)) matches Some(
                                pages,
                            ) && pages.len() == total);
                        }
                        Ok(true)
                    },
                    Err(err) => Err(err),
                }
            },
        }
    }
}

/// The last page of a file with `total` pages.
pub open spec fn last_page(total: usize) -> usize {
    if total == 0 {
        0usize
    } else {
        (total - 1) as usize
    }
}

impl Library {
    /// Marks one file of one item as read: sets its current page to the last
    /// page. The total page count is the recorded one when a record exists,
    /// else the one `reader` resolves.
    pub fn mark_as_read<R: Reader>(&mut self, id: &str, file_num: usize, reader: &mut R) -> (r:
        Result<bool, AppError>)
        requires
            old(self).wf(),
            old(reader).inv(),
        ensures
            final(self).wf(),
            final(reader).inv(),
            match r {
                Ok(changed) => ({
                    let e = old(self).as_map()[id@];
                    let filename = e.files[file_num as int];
                    let pm = e.metafile.reading_progress;
                    let had = map_of(pm).contains_key(filename);
                    &&& old(self).as_map().contains_key(id@)
                    &&& file_num < e.files.len()
                    &&& ({
                        let noop = had && map_of(pm)[filename].current_page == last_page(
                            map_of(pm)[filename].total_pages,
                        );
                        &&& (had ==> changed == !noop)
                        &&& (had && noop ==> *final(self) == *old(self))
                        &&& (had && !noop ==> final(self).entry_pairs() == set_assoc(
                            old(self).entry_pairs(),
                            id@,
                            with_progress(
                                e,
                                set_assoc(
                                    pm,
                                    filename,
                                    (ReadingProgress {
                                        current_page: last_page(map_of(pm)[filename].total_pages),
                                        total_pages: map_of(pm)[filename].total_pages,
                                    }),
                                ),
                            ),
                        ))
                        &&& (!had ==> changed && (final(reader).book(
                            path_join(e.output_dir, filename),
                        ) matches Some(pages) && pages.len() <= usize::MAX
                            && final(self).entry_pairs() == set_assoc(
                            old(self).entry_pairs(),
                            id@,
                            with_progress(
                                e,
                                set_assoc(
                                    pm,
                                    filename,
                                    (ReadingProgress {
                                        current_page: last_page(pages.len() as usize),
                                        total_pages: pages.len() as usize,
                                    }),
                                ),
                            ),
                        )))
                    })
                }),
                Err(err) => ({
                    let m = old(self).as_map();
                    &&& *final(self) == *old(self)
                    &&& (!m.contains_key(id@) ==> err == AppError::MissingEntry)
                    &&& (m.contains_key(id@) && file_num >= m[id@].files.len() ==> err
                        == AppError::BadFileIndex)
                    &&& (m.contains_key(id@) && file_num < m[id@].files.len() ==> !map_of(
                        m[id@].metafile.reading_progress,
                    ).contains_key(m[id@].files[file_num as int]))
                    &&& (!(m.contains_key(id@) && file_num < m[id@].files.len()) ==> *final(reader)
                        == *old(reader))
                }),
            },
            ({
                let e = old(self).as_map()[id@];
                old(self).as_map().contains_key(id@) && file_num < e.files.len() && (map_of(
                    e.metafile.reading_progress,
                ).contains_key(e.files[file_num as int]) || old(reader).book(
                    path_join(e.output_dir, e.files[file_num as int]),
                ) is Some)
            }) ==> r is Ok,
    {
        let id_owned = id.to_owned();
        proof {
            lemma_map_of_contains_key(self.entry_pairs(), id@);
        }
        let position = self.position(&id_owned);
        let i = match position {
            Some(i) => i,
            None => {
                return Err(AppError::MissingEntry);
            },
        };
        proof {
            lemma_map_of_index(self.entry_pairs(), i as int);
        }
        if file_num >= self.entries[i].files.len() {
            return Err(AppError::BadFileIndex);
        }
        let filename = self.entries[i].files[file_num].clone();
        let existing = self.entries[i].metafile.reading_progress.get(&filename);
        match existing {
            Some(p) => {
                let total: usize = p.total_pages;
                let page: usize = if total == 0 {
                    0
                } else {
                    total - 1
                };
                let res = self.update_reading_progress(id, file_num, page, reader);
                res
            },
            None => {
                let path = join_path(&self.entries[i].output_dir, &filename);
                let loaded = reader.load(&path);
                match loaded {
                    Err(err) => Err(err),
                    Ok(total) => {
                        let page: usize = if total == 0 {
                            0
                        } else {
                            total - 1
                        };
                        let res = self.update_reading_progress(id, file_num, page, reader);
                        res
                    },
                }
            },
        }
    }

    /// Clears the stored progress of one file, or of every file when no
    /// index is given. The caller persists the record afterwards.
    pub fn clear_reading_progress(&mut self, id: &str, file_index: Option<usize>) -> (r: Result<
        (),
        AppError,
    >)
        requires
            old(self).wf(),
        ensures
            final(self).wf(),
            match r {
                Ok(_) => ({
                    let e = old(self).as_map()[id@];
                    let pm = e.metafile.reading_progress;
                    &&& old(self).as_map().contains_key(id@)
                    &&& match file_index {
                        Some(idx) => idx < e.files.len() && final(self).entry_pairs()
                            == set_assoc(
                            old(self).entry_pairs(),
                            id@,
                            with_progress(e, remove_assoc(pm, e.files[idx as int])),
                        ),
                        None => final(self).entry_pairs() == set_assoc(
                            old(self).entry_pairs(),
                            id@,
                            with_progress(e, Seq::empty()),
                        ),
                    }
                }),
                Err(err) => ({
                    let m = old(self).as_map();
                    &&& *final(self) == *old(self)
                    &&& (err == AppError::MissingEntry <==> !m.contains_key(id@))
                    &&& (err == AppError::BadFileIndex <==> m.contains_key(id@) && (
                    file_index matches Some(idx) && idx >= m[id@].files.len()))
                }),
            },
            (old(self).as_map().contains_key(id@) && (file_index matches Some(idx) ==> idx < old(
                self,
            ).as_map()[id@].files.len())) ==> r is Ok,
    {
        let id_owned = id.to_owned();
        proof {
            lemma_map_of_contains_key(self.entry_pairs(), id@);
        }
        let position = self.position(&id_owned);
        let i = match position {
            Some(i) => i,
            None => {
                return Err(AppError::MissingEntry);
            },
        };
        proof {
            lemma_map_of_index(self.entry_pairs(), i as int);
        }
        match file_index {
            Some(idx) => {
                if idx >= self.entries[i].files.len() {
                    return Err(AppError::BadFileIndex);
                }
                let filename = self.entries[i].files[idx].clone();
                let mut e2 = self.entries[i].clone();
                proof {
                    assert(e2.wf());
                }
                e2.metafile.reading_progress.remove(&filename);
                proof {
                    assert(e2@ =~= with_progress(
                        old(self).as_map()[id@],
                        remove_assoc(
                            old(self).as_map()[id@].metafile.reading_progress,
                            filename@,
                        ),
                    ));
                }
                self.replace_entry_at(i, e2);
                Ok(())
            },
            None => {
                let mut e2 = self.entries[i].clone();
                e2.metafile.reading_progress.clear();
                proof {
                    assert(e2@ =~= with_progress(old(self).as_map()[id@], Seq::empty()));
                }
                self.replace_entry_at(i, e2);
                Ok(())
            },
        }
    }

    /// Replaces the per-item reader settings. The caller persists the record
    /// afterwards.
    pub fn update_settings(&mut self, id: &str, settings: LibraryEntrySettings) -> (r: Result<
        (),
        AppError,
    >)
        requires
            old(self).wf(),
        ensures
            final(self).wf(),
            match r {
                Ok(_) => old(self).as_map().contains_key(id@) && final(self).entry_pairs()
                    == set_assoc(
                    old(self).entry_pairs(),
                    id@,
                    with_settings(old(self).as_map()[id@], Some(settings@)),
                ),
                Err(err) => err == AppError::MissingEntry && !old(self).as_map().contains_key(id@)
                    && *final(self) == *old(self),
            },
    {
        let id_owned = id.to_owned();
        proof {
            lemma_map_of_contains_key(self.entry_pairs(), id@);
        }
        let position = self.position(&id_owned);
        let i = match position {
            Some(i) => i,
            None => {
                return Err(AppError::MissingEntry);
            },
        };
        proof {
            lemma_map_of_index(self.entry_pairs(), i as int);
        }
        let mut e2 = self.entries[i].clone();
        e2.metafile.settings = Some(settings);
        proof {
            assert(e2@ =~= with_settings(
                old(self).as_map()[id@],
                Some(e2.metafile.settings.unwrap()@),
            ));
        }
        self.replace_entry_at(i, e2);
        Ok(())
    }

    /// Renames an item: gives it a new display title, moves its entry to the
    /// directory named after the title, and replaces its stored metadata.
    /// Returns the old and new directory paths; the caller performs the
    /// on-disk rename and persists the record.
    pub fn rename(&mut self, id: &str, new_title: String, metadata: Option<Metadata>) -> (r:
        Result<(String, String), AppError>)
        requires
            old(self).wf(),
        ensures
            final(self).wf(),
            match r {
                Ok(dirs) => ({
                    let e = old(self).as_map()[id@];
                    let to = path_join(dir_name(e.output_dir), new_title@);
                    &&& old(self).as_map().contains_key(id@)
                    &&& dirs.0@ == e.output_dir
                    &&& dirs.1@ == to
                    &&& final(self).entry_pairs() == set_assoc(
                        old(self).entry_pairs(),
                        id@,
                        (LibraryEntryV {
                            name: new_title@,
                            output_dir: to,
                            metafile: MetafileV {
                                metadata: match metadata {
                                    Some(md) => Some(md@),
                                    None => None,
                                },
                                ..e.metafile
                            },
                            ..e
                        }),
                    )
                }),
                Err(err) => err == AppError::MissingEntry && !old(self).as_map().contains_key(id@)
                    && *final(self) == *old(self),
            },
    {
        let id_owned = id.to_owned();
        proof {
            lemma_map_of_contains_key(self.entry_pairs(), id@);
        }
        let position = self.position(&id_owned);
        let i = match position {
            Some(i) => i,
            None => {
                return Err(AppError::MissingEntry);
            },
        };
        proof {
            lemma_map_of_index(self.entry_pairs(), i as int);
        }
        let from = self.entries[i].output_dir.clone();
        let parent = dir_name_of(&from);
        let to = join_path(&parent, &new_title);
        let mut e2 = self.entries[i].clone();
        e2.name = new_title;
        e2.output_dir = to.clone();
        e2.metafile.metadata = metadata;
        proof {
            assert(e2@ =~= (LibraryEntryV {
                name: e2.name@,
                output_dir: to@,
                metafile: MetafileV {
                    metadata: e2@.metafile.metadata,
                    ..old(self).as_map()[id@].metafile
                },
                ..old(self).as_map()[id@]
            }));
        }
        self.replace_entry_at(i, e2);
        Ok((from, to))
    }
}

/// An entry with its settings replaced.
pub open spec fn with_settings(
    e: LibraryEntryV,
    st: Option<crate::metafile::LibraryEntrySettingsV>,
) -> LibraryEntryV {
    LibraryEntryV { metafile: MetafileV { settings: st, ..e.metafile }, ..e }
}

/// An entry with its reading-progress record replaced.
pub open spec fn with_progress(
    e: LibraryEntryV,
    pm: Seq<(Seq<char>, ReadingProgress)>,
) -> LibraryEntryV {
    LibraryEntryV { metafile: MetafileV { reading_progress: pm, ..e.metafile }, ..e }
}

/// Idempotence of progress updates: writing a page stores exactly that page,
/// and writing it again changes nothing.
pub proof fn lemma_progress_update_idempotent(
    pm: Seq<(Seq<char>, ReadingProgress)>,
    filename: Seq<char>,
    p: ReadingProgress,
)
    requires
        distinct_keys(pm),
    ensures
        map_of(set_assoc(pm, filename, p)).contains_key(filename),
        map_of(set_assoc(pm, filename, p))[filename] == p,
        set_assoc(set_assoc(pm, filename, p), filename, p) == set_assoc(pm, filename, p),
{
    lemma_map_of_contains_key(pm, filename);
    if map_of(pm).contains_key(filename) {
        let i = choose|i: int| 0 <= i < pm.len() && pm[i].0 == filename;
        lemma_set_assoc_update(pm, i, p);
        lemma_map_of_update(pm, i, p);
    } else {
        lemma_set_assoc_push(pm, filename, p);
        lemma_map_of_push(pm, filename, p);
    }
    lemma_set_assoc_idempotent(pm, filename, p);
}

} // verus!
