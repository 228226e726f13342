//! The per-item sidecar record: source identity, optional catalog metadata,
//! per-file reading progress, and optional reader settings. One such record
//! is persisted beside each downloaded item's files; the encoding lives in
//! `codec`.

use vstd::prelude::*;
use crate::assoc::{
    distinct_keys, lemma_remove_assoc_absent, lemma_remove_assoc_at, lemma_set_assoc_push,
    lemma_set_assoc_update, map_of, remove_assoc, set_assoc,
};
use vstd::pervasive::cloned;

verus! {

/// Tag of the provider a downloaded item came from.
#[derive(Clone, Copy, PartialEq, Eq, Structural, Debug)]
pub enum Provider {
    Nyaa,
}

/// Source identity of an item: the provider's stable listing id plus the
/// provider tag. The id is the key of the library.
pub struct SourceMeta {
    pub id: String,
    pub provider: Provider,
}

/// Mathematical value of a [`SourceMeta`].
#[verifier::ext_equal]
pub struct SourceMetaV {
    pub id: Seq<char>,
    pub provider: Provider,
}

impl View for SourceMeta {
    type V = SourceMetaV;

    open spec fn view(&self) -> SourceMetaV {
        SourceMetaV { id: self.id@, provider: self.provider }
    }
}

/// Catalog metadata resolved for an item's title.
pub struct Metadata {
    pub id: i64,
    pub title: String,
    pub cover: Option<String>,
    pub authors: Option<Vec<String>>,
    pub artists: Option<Vec<String>>,
    pub description: Option<String>,
    pub year: Option<i64>,
    pub tags: Option<Vec<String>>,
    pub media_type: String,
    pub status: String,
    pub genres: Option<Vec<String>>,
}

/// View of an optional string.
pub open spec fn view_opt_str(o: Option<String>) -> Option<Seq<char>> {
    match o {
        Some(s) => Some(s@),
        None => None,
    }
}

/// View of a vector of strings.
pub open spec fn view_str_vec(v: Vec<String>) -> Seq<Seq<char>> {
    v@.map_values(|s: String| s@)
}

/// View of an optional vector of strings.
pub open spec fn view_opt_str_vec(o: Option<Vec<String>>) -> Option<Seq<Seq<char>>> {
    match o {
        Some(v) => Some(view_str_vec(v)),
        None => None,
    }
}

/// Mathematical value of a [`Metadata`].
#[verifier::ext_equal]
pub struct MetadataV {
    pub id: i64,
    pub title: Seq<char>,
    pub cover: Option<Seq<char>>,
    pub authors: Option<Seq<Seq<char>>>,
    pub artists: Option<Seq<Seq<char>>>,
    pub description: Option<Seq<char>>,
    pub year: Option<i64>,
    pub tags: Option<Seq<Seq<char>>>,
    pub media_type: Seq<char>,
    pub status: Seq<char>,
    pub genres: Option<Seq<Seq<char>>>,
}

impl View for Metadata {
    type V = MetadataV;

    open spec fn view(&self) -> MetadataV {
        MetadataV {
            id: self.id,
            title: self.title@,
            cover: view_opt_str(self.cover),
            authors: view_opt_str_vec(self.authors),
            artists: view_opt_str_vec(self.artists),
            description: view_opt_str(self.description),
            year: self.year,
            tags: view_opt_str_vec(self.tags),
            media_type: self.media_type@,
            status: self.status@,
            genres: view_opt_str_vec(self.genres),
        }
    }
}

/// Reading position within one file of an item. `total_pages`, once
/// recorded, is authoritative until the file is reloaded.
#[derive(Clone, Copy, PartialEq, Eq, Structural, Debug)]
pub struct ReadingProgress {
    pub current_page: usize,
    pub total_pages: usize,
}

/// How the reader lays out pages for one item.
#[derive(Clone, Copy, PartialEq, Eq, Structural, Debug)]
pub enum ReaderLayout {
    LongStrip,
    SinglePage,
    DoublePage,
}

/// Per-item reader settings.
pub struct ReaderSettings {
    pub gap: Option<u32>,
    pub background_color: Option<String>,
    pub layout: Option<ReaderLayout>,
}

/// Mathematical value of a [`ReaderSettings`].
#[verifier::ext_equal]
pub struct ReaderSettingsV {
    pub gap: Option<u32>,
    pub background_color: Option<Seq<char>>,
    pub layout: Option<ReaderLayout>,
}

impl View for ReaderSettings {
    type V = ReaderSettingsV;

    open spec fn view(&self) -> ReaderSettingsV {
        ReaderSettingsV {
            gap: self.gap,
            background_color: view_opt_str(self.background_color),
            layout: self.layout,
        }
    }
}

/// Per-item settings stored in the sidecar record.
pub struct LibraryEntrySettings {
    pub reader: ReaderSettings,
}

/// Mathematical value of a [`LibraryEntrySettings`].
#[verifier::ext_equal]
pub struct LibraryEntrySettingsV {
    pub reader: ReaderSettingsV,
}

impl View for LibraryEntrySettings {
    type V = LibraryEntrySettingsV;

    open spec fn view(&self) -> LibraryEntrySettingsV {
        LibraryEntrySettingsV { reader: self.reader@ }
    }
}

/// Association list from filename to reading progress. Its well-formedness
/// invariant keeps the filenames distinct, so it denotes a finite map.
pub struct ProgressMap {
    pub entries: Vec<(String, ReadingProgress)>,
}

impl View for ProgressMap {
    type V = Seq<(Seq<char>, ReadingProgress)>;

    open spec fn view(&self) -> Seq<(Seq<char>, ReadingProgress)> {
        self.entries@.map_values(|e: (String, ReadingProgress)| (e.0@, e.1))
    }
}

impl ProgressMap {
    /// Filenames are distinct.
    pub open spec fn wf(&self) -> bool {
        distinct_keys(self@)
    }

    /// The map from filename to progress that this record denotes.
    pub open spec fn as_map(&self) -> Map<Seq<char>, ReadingProgress> {
        map_of(self@)
    }

    /// An empty record.
    pub fn new() -> (r: ProgressMap)
        ensures
            r.wf(),
            r@ == Seq::<(Seq<char>, ReadingProgress)>::empty(),
            r.as_map() == Map::<Seq<char>, ReadingProgress>::empty(),
    {
        let r = ProgressMap { entries: Vec::new() };
        proof {
            assert(r@ =~= Seq::<(Seq<char>, ReadingProgress)>::empty());
        }
        r
    }

    /// Index of the entry for `name`, if any.
    fn position(&self, name: &String) -> (r: Option<usize>)
        ensures
            match r {
                Some(i) => i < self@.len() && self@[i as int].0 == name@,
                None => forall|i: int| 0 <= i < self@.len() ==> self@[i].0 != name@,
            },
    {
        let mut i: usize = 0;
        while i < self.entries.len()
            invariant
                i <= self@.len(),
                self@.len() == self.entries@.len(),
                forall|j: int| 0 <= j < i ==> self@[j].0 != name@,
            decreases self@.len() - i,
        {
            if self.entries[i].0 == *name {
                return Some(i);
            }
            i = i + 1;
        }
        None
    }

    /// The stored progress for `name`, if any.
    pub fn get(&self, name: &String) -> (r: Option<ReadingProgress>)
        requires
            self.wf(),
        ensures
            r == if self.as_map().contains_key(name@) {
                Some(self.as_map()[name@])
            } else {
                None::<ReadingProgress>
            },
    {
        proof {
            crate::assoc::lemma_map_of_contains_key(self@, name@);
        }
        match self.position(name) {
            Some(i) => {
                proof {
                    crate::assoc::lemma_map_of_index(self@, i as int);
                }
                Some(self.entries[i].1)
            },
            None => None,
        }
    }

    /// Inserts or replaces the progress recorded for `name`.
    pub fn set(&mut self, name: &String, p: ReadingProgress)
        requires
            old(self).wf(),
        ensures
            final(self).wf(),
            final(self)@ == set_assoc(old(self)@, name@, p),
            final(self).as_map() == old(self).as_map().insert(name@, p),
    {
        let position = self.position(name);
        match position {
            Some(i) => {
                proof {
                    crate::assoc::lemma_map_of_update(self@, i as int, p);
                    lemma_set_assoc_update(self@, i as int, p);
                }
                let name_owned = self.entries[i].0.clone();
                self.entries.set(i, (name_owned, p));
                proof {
                    assert(self@ =~= old(self)@.update(i as int, (old(self)@[i as int].0, p)));
                }
            },
            None => {
                proof {
                    crate::assoc::lemma_map_of_push(self@, name@, p);
                    lemma_set_assoc_push(self@, name@, p);
                }
                self.entries.push((name.clone(), p));
                proof {
                    assert(self@ =~= old(self)@.push((name@, p)));
                    assert forall|a: int, b: int|
                        0 <= a < b < self@.len() implies self@[a].0 != self@[b].0 by {
                        if b == self@.len() - 1 {
                            assert(self@[a].0 != name@);
                        }
                    }
                }
            },
        }
    }

    /// Removes the progress recorded for `name`; a no-op when none exists.
    pub fn remove(&mut self, name: &String)
        requires
            old(self).wf(),
        ensures
            final(self).wf(),
            final(self)@ == remove_assoc(old(self)@, name@),
            final(self).as_map() == old(self).as_map().remove(name@),
    {
        let position = self.position(name);
        match position {
            Some(i) => {
                proof {
                    crate::assoc::lemma_map_of_remove(self@, i as int);
                    lemma_remove_assoc_at(self@, i as int);
                }
                self.entries.remove(i);
                proof {
                    assert(self@ =~= old(self)@.remove(i as int));
                }
            },
            None => {
                proof {
                    crate::assoc::lemma_map_of_contains_key(self@, name@);
                    lemma_remove_assoc_absent(self@, name@);
                    assert(self.as_map() =~= self.as_map().remove(name@));
                }
            },
        }
    }

    /// Removes every recorded progress entry.
    pub fn clear(&mut self)
        ensures
            final(self).wf(),
            final(self).as_map() == Map::<Seq<char>, ReadingProgress>::empty(),
            final(self)@ == Seq::<(Seq<char>, ReadingProgress)>::empty(),
    {
        self.entries.clear();
        proof {
            assert(self@ =~= Seq::<(Seq<char>, ReadingProgress)>::empty());
        }
    }
}

impl Clone for ProgressMap {
    fn clone(&self) -> (r: Self)
        ensures
            r@ == self@,
    {
        let mut entries: Vec<(String, ReadingProgress)> = Vec::new();
        let mut i: usize = 0;
        while i < self.entries.len()
            invariant
                i <= self.entries@.len(),
                entries@.len() == i,
                forall|j: int| #![trigger entries@[j]]
                    0 <= j < i ==> entries@[j].0@ == self.entries@[j].0@ && entries@[j].1
                        == self.entries@[j].1,
            decreases self.entries@.len() - i,
        {
            entries.push((self.entries[i].0.clone(), self.entries[i].1));
            proof {
                assert(entries@[i as int].0@ == self.entries@[i as int].0@);
                assert(entries@[i as int].1 == self.entries@[i as int].1);
            }
            i = i + 1;
        }
        let r = ProgressMap { entries };
        proof {
            assert(r@ =~= self@);
        }
        r
    }
}

/// The durable sidecar record for one downloaded item.
pub struct Metafile {
    pub source: SourceMeta,
    pub metadata: Option<Metadata>,
    pub reading_progress: ProgressMap,
    pub settings: Option<LibraryEntrySettings>,
}

/// Mathematical value of a [`Metafile`].
#[verifier::ext_equal]
pub struct MetafileV {
    pub source: SourceMetaV,
    pub metadata: Option<MetadataV>,
    pub reading_progress: Seq<(Seq<char>, ReadingProgress)>,
    pub settings: Option<LibraryEntrySettingsV>,
}

impl View for Metafile {
    type V = MetafileV;

    open spec fn view(&self) -> MetafileV {
        MetafileV {
            source: self.source@,
            metadata: match self.metadata {
                Some(m) => Some(m@),
                None => None,
            },
            reading_progress: self.reading_progress@,
            settings: match self.settings {
                Some(s) => Some(s@),
                None => None,
            },
        }
    }
}

impl Metafile {
    /// Filenames in the reading-progress record are distinct.
    pub open spec fn wf(&self) -> bool {
        self.reading_progress.wf()
    }

    /// A fresh record with no reading progress and no settings.
    pub fn new(source: SourceMeta, metadata: Option<Metadata>) -> (r: Metafile)
        ensures
            r.wf(),
            r@.source == source@,
            r@.metadata == match metadata {
                Some(m) => Some(m@),
                None => None::<MetadataV>,
            },
            r@.reading_progress == Seq::<(Seq<char>, ReadingProgress)>::empty(),
            r@.settings is None,
    {
        Metafile { source, metadata, reading_progress: ProgressMap::new(), settings: None }
    }
}

/// A clone of a string vector has the same view.
proof fn lemma_cloned_str_vec(a: Vec<String>, b: Vec<String>)
    requires
        cloned(a, b),
    ensures
        view_str_vec(b) == view_str_vec(a),
{
    if a == b {
    } else {
        assert(view_str_vec(b) =~= view_str_vec(a)) by {
            assert(forall|i: int| 0 <= i < a@.len() ==> cloned::<String>(a@[i], b@[i]));
            assert forall|i: int| 0 <= i < a@.len() implies b@[i]@ == a@[i]@ by {
                assert(cloned::<String>(a@[i], b@[i]));
            }
        }
    }
}

impl Clone for SourceMeta {
    fn clone(&self) -> (r: Self)
        ensures
            r@ == self@,
    {
        SourceMeta { id: self.id.clone(), provider: self.provider }
    }
}

impl Clone for Metadata {
    fn clone(&self) -> (r: Self)
        ensures
            r@ == self@,
    {
        let r = Metadata {
            id: self.id,
            title: self.title.clone(),
            cover: self.cover.clone(),
            authors: self.authors.clone(),
            artists: self.artists.clone(),
            description: self.description.clone(),
            year: self.year,
            tags: self.tags.clone(),
            media_type: self.media_type.clone(),
            status: self.status.clone(),
            genres: self.genres.clone(),
        };
        proof {
            if self.authors is Some {
                lemma_cloned_str_vec(self.authors.unwrap(), r.authors.unwrap());
            }
            if self.artists is Some {
                lemma_cloned_str_vec(self.artists.unwrap(), r.artists.unwrap());
            }
            if self.tags is Some {
                lemma_cloned_str_vec(self.tags.unwrap(), r.tags.unwrap());
            }
            if self.genres is Some {
                lemma_cloned_str_vec(self.genres.unwrap(), r.genres.unwrap());
            }
            assert(r@ =~= self@);
        }
        r
    }
}

impl Clone for ReaderSettings {
    fn clone(&self) -> (r: Self)
        ensures
            r@ == self@,
    {
        ReaderSettings {
            gap: self.gap,
            background_color: self.background_color.clone(),
            layout: self.layout,
        }
    }
}

impl Clone for LibraryEntrySettings {
    fn clone(&self) -> (r: Self)
        ensures
            r@ == self@,
    {
        LibraryEntrySettings { reader: self.reader.clone() }
    }
}

impl Clone for Metafile {
    fn clone(&self) -> (r: Self)
        ensures
            r@ == self@,
    {
        let metadata: Option<Metadata> = match &self.metadata {
            Some(m) => Some(m.clone()),
            None => None,
        };
        let settings: Option<LibraryEntrySettings> = match &self.settings {
            Some(s) => Some(s.clone()),
            None => None,
        };
        let r = Metafile {
            source: self.source.clone(),
            metadata,
            reading_progress: self.reading_progress.clone(),
            settings,
        };
        proof {
            assert(r@ =~= self@);
        }
        r
    }
}

} // verus!
