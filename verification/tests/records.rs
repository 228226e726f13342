//! Tests for the sidecar record codec, the library index and the small
//! parsers.

use mangashelf::library::{DirScan, Library};
use mangashelf::metafile::{
    LibraryEntrySettings, Metadata, Metafile, ProgressMap, Provider, ReaderLayout, ReaderSettings,
    ReadingProgress, SourceMeta,
};
use mangashelf::errors::AppError;
use mangashelf::nyaa::{LiteratureSubCategory, NyaaCategory, NyaaFilter};
use mangashelf::utils::parse_pages_uri;

fn sample_metadata() -> Metadata {
    Metadata {
        id: -77,
        title: "Oshi Research".to_string(),
        cover: Some("https://covers.example/77.png".to_string()),
        authors: Some(vec!["A. Writer".to_string(), "B. Artist".to_string()]),
        artists: None,
        description: Some("A story with \"quotes\", colons: and 数字.".to_string()),
        year: Some(2021),
        tags: Some(vec![]),
        media_type: "manga".to_string(),
        status: "completed".to_string(),
        genres: Some(vec!["comedy".to_string()]),
    }
}

fn sample_metafile() -> Metafile {
    let mut progress = ProgressMap::new();
    progress.set(
        &"vol1.cbz".to_string(),
        ReadingProgress { current_page: 4, total_pages: 180 },
    );
    progress.set(
        &"vol2.cbz".to_string(),
        ReadingProgress { current_page: 0, total_pages: 172 },
    );
    Metafile {
        source: SourceMeta { id: "1990813".to_string(), provider: Provider::Nyaa },
        metadata: Some(sample_metadata()),
        reading_progress: progress,
        settings: Some(LibraryEntrySettings {
            reader: ReaderSettings {
                gap: Some(12),
                background_color: Some("#202020".to_string()),
                layout: Some(ReaderLayout::DoublePage),
            },
        }),
    }
}

fn encode_to_string(m: &Metafile) -> String {
    m.encode().iter().collect()
}

fn decode_str(s: &str) -> Option<Metafile> {
    Metafile::decode(&s.chars().collect())
}

#[test]
fn metafile_round_trip() {
    let original = sample_metafile();
    let encoded = original.encode();
    let decoded = Metafile::decode(&encoded).expect("canonical encoding must decode");
    assert_eq!(decoded.source.id, original.source.id);
    assert_eq!(decoded.source.provider, original.source.provider);
    let dm = decoded.metadata.as_ref().unwrap();
    let om = original.metadata.as_ref().unwrap();
    assert_eq!(dm.id, om.id);
    assert_eq!(dm.title, om.title);
    assert_eq!(dm.cover, om.cover);
    assert_eq!(dm.authors, om.authors);
    assert_eq!(dm.artists, om.artists);
    assert_eq!(dm.description, om.description);
    assert_eq!(dm.year, om.year);
    assert_eq!(dm.tags, om.tags);
    assert_eq!(dm.media_type, om.media_type);
    assert_eq!(dm.status, om.status);
    assert_eq!(dm.genres, om.genres);
    assert_eq!(decoded.reading_progress.entries, original.reading_progress.entries);
    let ds = decoded.settings.as_ref().unwrap();
    assert_eq!(ds.reader.gap, Some(12));
    assert_eq!(ds.reader.background_color.as_deref(), Some("#202020"));
    assert!(matches!(ds.reader.layout, Some(ReaderLayout::DoublePage)));
}

#[test]
fn metafile_round_trip_minimal() {
    let original = Metafile::new(
        SourceMeta { id: "x".to_string(), provider: Provider::Nyaa },
        None,
    );
    let decoded = Metafile::decode(&original.encode()).expect("must decode");
    assert_eq!(decoded.source.id, "x");
    assert!(decoded.metadata.is_none());
    assert!(decoded.settings.is_none());
    assert!(decoded.reading_progress.entries.is_empty());
}

#[test]
fn decode_rejects_garbage() {
    assert!(decode_str("").is_none());
    assert!(decode_str("m2").is_none());
    assert!(decode_str("not a record").is_none());
    let mut truncated = sample_metafile().encode();
    truncated.pop();
    assert!(Metafile::decode(&truncated).is_none());
    let mut extended = sample_metafile().encode();
    extended.push('x');
    assert!(Metafile::decode(&extended).is_none());
}

#[test]
fn decode_rejects_duplicate_progress_filenames() {
    // two progress entries under the same filename: built by hand, since
    // ProgressMap::set never produces duplicates
    let mut m = Metafile::new(
        SourceMeta { id: "dup".to_string(), provider: Provider::Nyaa },
        None,
    );
    m.reading_progress = ProgressMap {
        entries: vec![
            ("a.cbz".to_string(), ReadingProgress { current_page: 1, total_pages: 2 }),
            ("a.cbz".to_string(), ReadingProgress { current_page: 2, total_pages: 2 }),
        ],
    };
    assert!(Metafile::decode(&m.encode()).is_none());
}

#[test]
fn library_scan_skips_unreadable_metafiles() {
    let good = sample_metafile();
    let scans = vec![
        DirScan {
            name: "Good Series".to_string(),
            output_dir: "/library/Good Series".to_string(),
            meta_content: Some(encode_to_string(&good)),
            files: vec![
                "vol2.cbz".to_string(),
                "vol1.cbz".to_string(),
                ".meta".to_string(),
                "Good Series.torrent".to_string(),
            ],
        },
        DirScan {
            name: "No Sidecar".to_string(),
            output_dir: "/library/No Sidecar".to_string(),
            meta_content: None,
            files: vec!["vol1.cbz".to_string()],
        },
        DirScan {
            name: "Damaged".to_string(),
            output_dir: "/library/Damaged".to_string(),
            meta_content: Some("m1:broken".to_string()),
            files: vec!["vol1.cbz".to_string()],
        },
    ];
    let library = Library::new(scans);
    let entries = library.get_entries();
    assert_eq!(entries.len(), 1);
    let entry = library.get_entry("1990813").expect("good entry present");
    assert_eq!(entry.name, "Good Series");
    // sidecar and torrent files are filtered out; the rest is sorted
    assert_eq!(entry.files, vec!["vol1.cbz".to_string(), "vol2.cbz".to_string()]);
    assert!(library.get_entry("No Sidecar").is_none());
}

#[test]
fn library_delete_removes_entry() {
    let scans = vec![DirScan {
        name: "Solo".to_string(),
        output_dir: "/library/Solo".to_string(),
        meta_content: Some(encode_to_string(&sample_metafile())),
        files: vec!["vol1.cbz".to_string()],
    }];
    let mut library = Library::new(scans);
    assert!(library.delete("missing").is_err());
    let removed = library.delete("1990813").expect("entry exists");
    assert_eq!(removed.output_dir, "/library/Solo");
    assert!(library.get_entry("1990813").is_none());
    assert!(library.delete("1990813").is_err());
}

#[test]
fn library_rename_and_settings() {
    let scans = vec![DirScan {
        name: "Old Name".to_string(),
        output_dir: "/library/Old Name".to_string(),
        meta_content: Some(encode_to_string(&sample_metafile())),
        files: vec!["vol1.cbz".to_string()],
    }];
    let mut library = Library::new(scans);
    let (from, to) = library
        .rename("1990813", "New Name".to_string(), None)
        .expect("entry exists");
    assert_eq!(from, "/library/Old Name");
    assert_eq!(to, "/library/New Name");
    let entry = library.get_entry("1990813").unwrap();
    assert_eq!(entry.name, "New Name");
    assert_eq!(entry.output_dir, "/library/New Name");
    assert!(entry.metafile.metadata.is_none());

    let settings = LibraryEntrySettings {
        reader: ReaderSettings {
            gap: None,
            background_color: None,
            layout: Some(ReaderLayout::LongStrip),
        },
    };
    library.update_settings("1990813", settings).expect("entry exists");
    let entry = library.get_entry("1990813").unwrap();
    assert!(matches!(
        entry.metafile.settings.as_ref().unwrap().reader.layout,
        Some(ReaderLayout::LongStrip)
    ));
    assert!(library.update_settings(
        "missing",
        LibraryEntrySettings {
            reader: ReaderSettings { gap: None, background_color: None, layout: None },
        },
    )
    .is_err());
}

#[test]
fn pages_uri_parses_three_parts() {
    let (id, file_num, page_num) = parse_pages_uri("/1990813/1/42").expect("well-formed");
    assert_eq!(id, "1990813");
    assert_eq!(file_num, 1);
    assert_eq!(page_num, 42);
    // extra segments are ignored
    let (id, f, p) = parse_pages_uri("/abc/0/7/rest").expect("well-formed");
    assert_eq!(id, "abc");
    assert_eq!(f, 0);
    assert_eq!(p, 7);
}

#[test]
fn pages_uri_rejects_malformed_addresses() {
    assert!(parse_pages_uri("no-leading-slash/1/2").is_err());
    assert!(parse_pages_uri("/only-id").is_err());
    assert!(parse_pages_uri("/id/1").is_err());
    assert!(parse_pages_uri("/id/x/2").is_err());
    assert!(parse_pages_uri("/id/1/y").is_err());
    assert!(parse_pages_uri("").is_err());
}

#[test]
fn category_query_params() {
    let c = NyaaCategory::from_query_param("/?c=3_0").expect("literature base");
    assert!(matches!(c, NyaaCategory::Literature(LiteratureSubCategory::Base)));
    let c = NyaaCategory::from_query_param("/?c=3_2").expect("non-english");
    assert!(matches!(
        c,
        NyaaCategory::Literature(LiteratureSubCategory::NonEnglishTranslated)
    ));
    assert!(NyaaCategory::from_query_param("/?c=1_0").is_err());
    assert!(NyaaCategory::from_query_param("/?c=3_9").is_err());
    assert!(NyaaCategory::from_query_param("c=3_0").is_err());
    assert!(NyaaCategory::from_query_param("/?c=3_").is_err());

    let c = NyaaCategory::Literature(LiteratureSubCategory::Raw);
    assert_eq!(c.to_query_param(), "3_3");
    // writing a category and reading the href back round-trips
    let href = format!("/?c={}", c.to_query_param());
    let back = NyaaCategory::from_query_param(&href).unwrap();
    assert_eq!(back, c);
    assert_eq!(NyaaFilter::TrustedOnly.to_query_param(), "2");
    assert_eq!(NyaaFilter::NoFilter.to_query_param(), "0");
}

#[test]
fn minimal_record_has_the_canonical_text_form() {
    // header, counted id, provider tag, no metadata, empty progress, no settings
    let m = Metafile::new(
        SourceMeta { id: "x".to_string(), provider: Provider::Nyaa },
        None,
    );
    assert_eq!(encode_to_string(&m), "m11:xn00:0");
    // one progress entry: filename, current page, total pages
    let mut m = m;
    m.reading_progress.set(
        &"a".to_string(),
        ReadingProgress { current_page: 2, total_pages: 10 },
    );
    assert_eq!(encode_to_string(&m), "m11:xn01:1:a2:10:0");
}

#[test]
fn error_messages_describe_each_failure() {
    assert_eq!(AppError::MissingEntry.message(), "missing library entry");
    assert_eq!(AppError::BadFileIndex.message(), "no file at that index");
    assert_eq!(AppError::CacheMiss.message(), "archive not loaded");
    assert_eq!(AppError::BadArchive.message(), "malformed page archive");
    assert_eq!(AppError::BadPageIndex.message(), "no page at that index");
    assert_eq!(AppError::MissingDownload.message(), "no active download with that id");
}

#[test]
fn progress_map_set_and_remove() {
    let mut pm = ProgressMap::new();
    let name = "vol1.cbz".to_string();
    assert!(pm.get(&name).is_none());
    pm.set(&name, ReadingProgress { current_page: 3, total_pages: 9 });
    assert_eq!(pm.get(&name), Some(ReadingProgress { current_page: 3, total_pages: 9 }));
    pm.set(&name, ReadingProgress { current_page: 5, total_pages: 9 });
    assert_eq!(pm.get(&name), Some(ReadingProgress { current_page: 5, total_pages: 9 }));
    assert_eq!(pm.entries.len(), 1);
    pm.remove(&name);
    assert!(pm.get(&name).is_none());
    pm.remove(&name);
    assert!(pm.entries.is_empty());
}
