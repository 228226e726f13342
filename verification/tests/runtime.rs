//! Tests for the page cache, the download orchestrator and the end-to-end
//! reading flow, with real archive and image fixtures.

use std::io::Write;

use mangashelf::errors::AppError;
use mangashelf::library::{DirScan, Library};
use mangashelf::metafile::{Metafile, Provider, ReadingProgress, SourceMeta};
use mangashelf::orchestrator::{
    to_stats, EngineStats, Orchestrator, ProgressChannel, SessionEntry, TorrentStats,
};
use mangashelf::service::{AppCore, CbzLoad};

fn png_bytes(width: u32, height: u32) -> Vec<u8> {
    let img = image::RgbaImage::new(width, height);
    let mut buf = std::io::Cursor::new(Vec::new());
    img.write_to(&mut buf, image::ImageFormat::Png).expect("png encodes");
    buf.into_inner()
}

fn zip_bytes(entries: &[(&str, Vec<u8>)]) -> Vec<u8> {
    let mut writer = zip::ZipWriter::new(std::io::Cursor::new(Vec::new()));
    for (name, content) in entries {
        writer
            .start_file(name.to_string(), zip::write::SimpleFileOptions::default())
            .expect("start entry");
        writer.write_all(content).expect("write entry");
    }
    writer.finish().expect("finish archive").into_inner()
}

fn metafile_for(id: &str) -> Metafile {
    Metafile::new(SourceMeta { id: id.to_string(), provider: Provider::Nyaa }, None)
}

fn encode_to_string(m: &Metafile) -> String {
    m.encode().iter().collect()
}

fn snapshot(id: &str, finished: bool, progress: u64) -> TorrentStats {
    let raw = EngineStats {
        name: format!("{} payload", id),
        state: if finished { "finished".to_string() } else { "live".to_string() },
        progress_bytes: progress,
        uploaded_bytes: 0,
        total_bytes: 2048,
        finished,
        upload_speed: None,
        download_speed: Some(524288),
        remaining_time: None,
    };
    to_stats(id.to_string(), &raw)
}

fn empty_core() -> AppCore {
    let (orchestrator, skipped) = Orchestrator::new(Vec::new());
    assert!(skipped.is_empty());
    AppCore::new(Library::new(Vec::new()), orchestrator)
}

#[test]
fn cache_serves_loaded_archive_without_rereading() {
    let mut core = empty_core();
    let payload = zip_bytes(&[("p0.png", png_bytes(3, 2)), ("p1.png", png_bytes(5, 7))]);
    let encoded = core.finish_download(
        metafile_for("X"),
        "/library/X".to_string(),
        vec!["x.cbz".to_string()],
    );
    assert!(!encoded.is_empty());

    // first load: the cache asks for the file's bytes once
    let outcome = core.load_cbz("X", 0).expect("entry and file exist");
    let path = match outcome {
        CbzLoad::NeedsBytes(path) => path,
        CbzLoad::Loaded(_) => panic!("nothing is resident yet"),
    };
    assert_eq!(path, "/library/X/x.cbz");
    let count = core.load_cbz_bytes("X", 0, &payload).expect("archive decodes");
    assert_eq!(count, 2);

    // second load: served from the cache, no bytes requested
    match core.load_cbz("X", 0).expect("entry and file exist") {
        CbzLoad::Loaded(n) => assert_eq!(n, 2),
        CbzLoad::NeedsBytes(_) => panic!("must not reread a resident archive"),
    }

    // page bytes come back exactly as archived
    let page0 = core.get_page("X", 0, 0).expect("first page");
    assert_eq!(page0, png_bytes(3, 2));
    assert!(matches!(core.get_page("X", 0, 2), Err(AppError::BadPageIndex)));

    // decoded dimensions match the images that were archived
    let dims = core.get_dimensions("X", 0).expect("loaded");
    assert_eq!(dims, vec![(3, 2), (5, 7)]);
}

#[test]
fn cache_errors_for_unknown_and_unloaded() {
    let mut core = empty_core();
    assert!(matches!(core.load_cbz("nope", 0), Err(AppError::MissingEntry)));
    core.finish_download(
        metafile_for("X"),
        "/library/X".to_string(),
        vec!["x.cbz".to_string()],
    );
    assert!(matches!(core.load_cbz("X", 3), Err(AppError::BadFileIndex)));
    assert!(matches!(core.get_page("X", 0, 0), Err(AppError::CacheMiss)));
    assert!(matches!(core.get_dimensions("X", 0), Err(AppError::CacheMiss)));
    let garbage = vec![1u8, 2, 3, 4];
    assert!(matches!(
        core.load_cbz_bytes("X", 0, &garbage),
        Err(AppError::BadArchive)
    ));
}

#[test]
fn progress_channel_gives_new_subscribers_the_latest_snapshot() {
    let mut channel = ProgressChannel::new(snapshot("X", false, 10));
    let early = channel.subscribe();
    assert_eq!(early.current.progress_bytes, 10);
    channel.publish(snapshot("X", false, 700));
    channel.publish(snapshot("X", true, 2048));
    // a late subscriber immediately sees the most recent snapshot
    let late = channel.subscribe();
    assert!(late.current.finished);
    assert_eq!(late.current.progress_bytes, 2048);
    // an old receiver sees the change and catches up
    let mut early = early;
    assert!(early.changed(&channel));
    early.refresh(&channel);
    assert!(early.current.finished);
    assert!(!early.changed(&channel));
}

#[test]
fn orchestrator_tracks_downloads_until_completion() {
    let (mut orch, _) = Orchestrator::new(Vec::new());
    assert!(matches!(orch.complete("X"), Err(AppError::MissingDownload)));
    orch.register_download("X", 7, snapshot("X", false, 0));
    assert_eq!(orch.engine_id_of("X"), Some(7));
    assert_eq!(orch.translate(7).as_deref(), Some("X"));
    orch.publish_tick("X", snapshot("X", false, 512)).expect("active");
    let receiver = orch.get_progress_channel("X").expect("active");
    assert_eq!(receiver.current.progress_bytes, 512);

    let listed = orch.list_active(&vec![
        (7, engine_stats(false, 512)),
        (99, engine_stats(false, 1)),
    ]);
    // the engine-tracked download with no translation is skipped, not fatal
    assert_eq!(listed.len(), 1);
    assert_eq!(listed[0].id, "X");

    assert_eq!(orch.complete("X").expect("active"), 7);
    assert!(orch.get_progress_channel("X").is_none());
    assert!(orch.translate(7).is_none());
}

fn engine_stats(finished: bool, progress: u64) -> EngineStats {
    EngineStats {
        name: "payload".to_string(),
        state: "live".to_string(),
        progress_bytes: progress,
        uploaded_bytes: 0,
        total_bytes: 2048,
        finished,
        upload_speed: None,
        download_speed: None,
        remaining_time: Some("3s".to_string()),
    }
}

#[test]
fn reconciliation_rebuilds_the_translation_table() {
    let m1 = metafile_for("first-item");
    let m2 = metafile_for("second-item");
    let session = vec![
        SessionEntry { engine_id: 0, meta_content: Some(encode_to_string(&m1)) },
        SessionEntry { engine_id: 3, meta_content: Some(encode_to_string(&m2)) },
    ];
    let (orch, skipped) = Orchestrator::new(session);
    assert!(skipped.is_empty());
    assert_eq!(orch.translation.len(), 2);
    assert_eq!(orch.translate(0).as_deref(), Some("first-item"));
    assert_eq!(orch.translate(3).as_deref(), Some("second-item"));
    assert!(orch.translate(1).is_none());
}

#[test]
fn reconciliation_skips_untranslatable_entries() {
    let m1 = metafile_for("good");
    let session = vec![
        SessionEntry { engine_id: 1, meta_content: Some(encode_to_string(&m1)) },
        SessionEntry { engine_id: 2, meta_content: None },
        SessionEntry { engine_id: 5, meta_content: Some("m1:damaged".to_string()) },
    ];
    let (orch, skipped) = Orchestrator::new(session);
    assert_eq!(skipped, vec![2, 5]);
    assert_eq!(orch.translation.len(), 1);
    assert_eq!(orch.translate(1).as_deref(), Some("good"));
}

#[test]
fn end_to_end_download_and_reading() {
    let mut core = empty_core();

    // register a download for item "X" and follow it to completion
    core.orchestrator.register_download("X", 11, snapshot("X", false, 0));
    core.orchestrator.publish_tick("X", snapshot("X", true, 2048)).expect("active");
    let receiver = core.orchestrator.get_progress_channel("X").expect("active");
    assert!(receiver.current.finished);
    core.orchestrator.complete("X").expect("active");

    // the finished payload: a two-entry archive beside its control files
    let payload = zip_bytes(&[
        ("0001.png", png_bytes(4, 4)),
        ("0002.png", png_bytes(4, 4)),
        ("0003.png", png_bytes(4, 4)),
    ]);
    let encoded = core.finish_download(
        metafile_for("X"),
        "/library/X Title".to_string(),
        vec![
            "b.cbz".to_string(),
            "a.cbz".to_string(),
            ".meta".to_string(),
            "X Title.torrent".to_string(),
        ],
    );
    let entry = core.library.get_entry("X").expect("catalogued");
    assert_eq!(entry.name, "X Title");
    assert_eq!(entry.files, vec!["a.cbz".to_string(), "b.cbz".to_string()]);
    assert!(entry.metafile.reading_progress.entries.is_empty());
    // the persisted record reads back as the same catalogue state
    let reread = Metafile::decode(&encoded).expect("persisted record decodes");
    assert_eq!(reread.source.id, "X");

    // make file 0 resident so its page count can be resolved
    let outcome = core.load_cbz("X", 0).expect("file exists");
    let path = match outcome {
        CbzLoad::NeedsBytes(p) => p,
        CbzLoad::Loaded(_) => panic!("not loaded yet"),
    };
    assert_eq!(path, "/library/X Title/a.cbz");
    assert_eq!(core.load_cbz_bytes("X", 0, &payload).expect("decodes"), 3);

    // update reading progress: the new record goes to disk once
    let (dir, record) = core
        .update_reading_progress("X", 0, 1)
        .expect("entry and file exist")
        .expect("first update writes");
    assert_eq!(dir, "/library/X Title");
    let on_disk = Metafile::decode(&record).expect("persisted record decodes");
    assert_eq!(
        on_disk.reading_progress.entries,
        vec![("a.cbz".to_string(), ReadingProgress { current_page: 1, total_pages: 3 })]
    );

    // the same update again is a no-op: nothing to write
    assert!(core.update_reading_progress("X", 0, 1).expect("ok").is_none());

    // marking as read moves to the last page, using the recorded total
    let changed = core
        .library
        .mark_as_read("X", 0, &mut core.reader)
        .expect("entry and file exist");
    assert!(changed);
    let entry = core.library.get_entry("X").expect("catalogued");
    let progress = entry.metafile.reading_progress.get(&"a.cbz".to_string());
    assert_eq!(progress, Some(ReadingProgress { current_page: 2, total_pages: 3 }));
}
