//! The download orchestrator's bookkeeping: the translation table from the
//! torrent engine's internal numeric ids to stable item ids, one progress
//! channel per active download, and the restart reconciliation that rebuilds
//! the translation table from the engine's persisted session state. The
//! engine itself, the network and the per-second monitor loop live outside;
//! they drive this state machine with plain values.

use vstd::prelude::*;
use crate::assoc::{
    distinct_keys, lemma_map_of_contains_key, lemma_map_of_index, lemma_map_of_len,
    lemma_map_of_push, lemma_map_of_remove, lemma_map_of_update, lemma_remove_assoc_at,
    lemma_remove_assoc_absent, lemma_set_assoc_push, lemma_set_assoc_update, map_of, remove_assoc,
    set_assoc,
};
use crate::errors::AppError;
use crate::metafile::view_opt_str;
use crate::sidecar::sp_decode_metafile;

verus! {

// ---------------------------------------------------------------------------
// Statistics snapshots
// ---------------------------------------------------------------------------

/// A point-in-time statistics record for one download. Speeds are in bytes
/// per second.
pub struct TorrentStats {
    pub id: String,
    pub name: String,
    pub state: String,
    pub progress_bytes: u64,
    pub uploaded_bytes: u64,
    pub total_bytes: u64,
    pub finished: bool,
    pub upload_speed: Option<u64>,
    pub download_speed: Option<u64>,
    pub remaining_time: Option<String>,
}

/// Mathematical value of a [`TorrentStats`].
#[verifier::ext_equal]
pub struct TorrentStatsV {
    pub id: Seq<char>,
    pub name: Seq<char>,
    pub state: Seq<char>,
    pub progress_bytes: u64,
    pub uploaded_bytes: u64,
    pub total_bytes: u64,
    pub finished: bool,
    pub upload_speed: Option<u64>,
    pub download_speed: Option<u64>,
    pub remaining_time: Option<Seq<char>>,
}

impl View for TorrentStats {
    type V = TorrentStatsV;

    open spec fn view(&self) -> TorrentStatsV {
        TorrentStatsV {
            id: self.id@,
            name: self.name@,
            state: self.state@,
            progress_bytes: self.progress_bytes,
            uploaded_bytes: self.uploaded_bytes,
            total_bytes: self.total_bytes,
            finished: self.finished,
            upload_speed: self.upload_speed,
            download_speed: self.download_speed,
            remaining_time: view_opt_str(self.remaining_time),
        }
    }
}

impl Clone for TorrentStats {
    fn clone(&self) -> (r: Self)
        ensures
            r@ == self@,
    {
        let r = TorrentStats {
            id: self.id.clone(),
            name: self.name.clone(),
            state: self.state.clone(),
            progress_bytes: self.progress_bytes,
            uploaded_bytes: self.uploaded_bytes,
            total_bytes: self.total_bytes,
            finished: self.finished,
            upload_speed: self.upload_speed,
            download_speed: self.download_speed,
            remaining_time: self.remaining_time.clone(),
        };
        proof {
            assert(r@ =~= self@);
        }
        r
    }
}

/// The numbers the engine reports for one handle, without an item id.
pub struct EngineStats {
    pub name: String,
    pub state: String,
    pub progress_bytes: u64,
    pub uploaded_bytes: u64,
    pub total_bytes: u64,
    pub finished: bool,
    pub upload_speed: Option<u64>,
    pub download_speed: Option<u64>,
    pub remaining_time: Option<String>,
}

/// Mathematical value of an [`EngineStats`].
#[verifier::ext_equal]
pub struct EngineStatsV {
    pub name: Seq<char>,
    pub state: Seq<char>,
    pub progress_bytes: u64,
    pub uploaded_bytes: u64,
    pub total_bytes: u64,
    pub finished: bool,
    pub upload_speed: Option<u64>,
    pub download_speed: Option<u64>,
    pub remaining_time: Option<Seq<char>>,
}

impl View for EngineStats {
    type V = EngineStatsV;

    open spec fn view(&self) -> EngineStatsV {
        EngineStatsV {
            name: self.name@,
            state: self.state@,
            progress_bytes: self.progress_bytes,
            uploaded_bytes: self.uploaded_bytes,
            total_bytes: self.total_bytes,
            finished: self.finished,
            upload_speed: self.upload_speed,
            download_speed: self.download_speed,
            remaining_time: view_opt_str(self.remaining_time),
        }
    }
}

/// The snapshot an engine report denotes for the item `id`.
pub open spec fn stats_of(id: Seq<char>, raw: EngineStatsV) -> TorrentStatsV {
    TorrentStatsV {
        id,
        name: raw.name,
        state: raw.state,
        progress_bytes: raw.progress_bytes,
        uploaded_bytes: raw.uploaded_bytes,
        total_bytes: raw.total_bytes,
        finished: raw.finished,
        upload_speed: raw.upload_speed,
        download_speed: raw.download_speed,
        remaining_time: raw.remaining_time,
    }
}

/// Builds the snapshot for item `id` from an engine report.
pub fn to_stats(id: String, raw: &EngineStats) -> (r: TorrentStats)
    ensures
        r@ == stats_of(id@, raw@),
{
    let r = TorrentStats {
        id,
        name: raw.name.clone(),
        state: raw.state.clone(),
        progress_bytes: raw.progress_bytes,
        uploaded_bytes: raw.uploaded_bytes,
        total_bytes: raw.total_bytes,
        finished: raw.finished,
        upload_speed: raw.upload_speed,
        download_speed: raw.download_speed,
        remaining_time: raw.remaining_time.clone(),
    };
    proof {
        assert(r@ =~= stats_of(r.id@, raw@));
    }
    r
}

// ---------------------------------------------------------------------------
// The latest-value progress channel
// ---------------------------------------------------------------------------

/// A single-slot publish/subscribe channel: it holds only the latest
/// snapshot, counting publications, so a late subscriber misses history but
/// always sees the most recent value at once.
pub struct ProgressChannel {
    pub latest: TorrentStats,
    pub version: u64,
}

/// An observer handle: the last version it pulled and the snapshot it saw.
pub struct ProgressReceiver {
    pub last_version: u64,
    pub current: TorrentStats,
}

impl ProgressChannel {
    /// A channel seeded with an initial snapshot.
    pub fn new(initial: TorrentStats) -> (r: ProgressChannel)
        ensures
            r.latest@ == initial@,
            r.version == 0,
    {
        ProgressChannel { latest: initial, version: 0 }
    }

    /// Publishes a new snapshot: the slot is overwritten and the version
    /// advances (saturating), so observers always see versions in
    /// non-decreasing order.
    pub fn publish(&mut self, s: TorrentStats)
        ensures
            final(self).latest@ == s@,
            final(self).version >= old(self).version,
            old(self).version < u64::MAX ==> final(self).version == old(self).version + 1,
    {
        self.latest = s;
        if self.version < u64::MAX {
            self.version = self.version + 1;
        }
    }

    /// A new observer: it immediately holds the latest snapshot, no older
    /// than the most recent publication.
    pub fn subscribe(&self) -> (r: ProgressReceiver)
        ensures
            r.current@ == self.latest@,
            r.last_version == self.version,
    {
        ProgressReceiver { last_version: self.version, current: self.latest.clone() }
    }
}

impl ProgressReceiver {
    /// Whether the channel has published since this observer last pulled.
    pub fn changed(&self, ch: &ProgressChannel) -> (r: bool)
        ensures
            r == (self.last_version != ch.version),
    {
        self.last_version != ch.version
    }

    /// Pulls the latest snapshot. An observer of a channel never moves
    /// backwards: its version is non-decreasing.
    pub fn refresh(&mut self, ch: &ProgressChannel)
        requires
            old(self).last_version <= ch.version,
        ensures
            final(self).current@ == ch.latest@,
            final(self).last_version == ch.version,
            final(self).last_version >= old(self).last_version,
    {
        self.current = ch.latest.clone();
        self.last_version = ch.version;
    }
}

// ---------------------------------------------------------------------------
// Restart reconciliation
// ---------------------------------------------------------------------------

/// One entry of the engine's persisted session descriptor: the engine's
/// internal id and the text of the sidecar record found in that entry's
/// output folder, when one could be read.
pub struct SessionEntry {
    pub engine_id: u64,
    pub meta_content: Option<String>,
}

/// Mathematical value of a [`SessionEntry`].
#[verifier::ext_equal]
pub struct SessionEntryV {
    pub engine_id: u64,
    pub meta_content: Option<Seq<char>>,
}

impl View for SessionEntry {
    type V = SessionEntryV;

    open spec fn view(&self) -> SessionEntryV {
        SessionEntryV {
            engine_id: self.engine_id,
            meta_content: view_opt_str(self.meta_content),
        }
    }
}

/// The item id a session entry translates to, when its record decodes.
pub open spec fn session_item_id(e: SessionEntryV) -> Option<Seq<char>> {
    match e.meta_content {
        Some(content) => match sp_decode_metafile(content) {
            Some(mf) => Some(mf.source.id),
            None => None,
        },
        None => None,
    }
}

/// The translation pairs a session descriptor yields: one per entry whose
/// sidecar record decodes.
pub open spec fn session_pairs(ss: Seq<SessionEntryV>) -> Seq<(u64, Seq<char>)>
    decreases ss.len(),
{
    if ss.len() == 0 {
        Seq::empty()
    } else {
        let rest = session_pairs(ss.drop_last());
        match session_item_id(ss.last()) {
            Some(id) => rest.push((ss.last().engine_id, id)),
            None => rest,
        }
    }
}

/// The engine ids of the entries whose sidecar record does not decode.
pub open spec fn session_skipped(ss: Seq<SessionEntryV>) -> Seq<u64>
    decreases ss.len(),
{
    if ss.len() == 0 {
        Seq::empty()
    } else {
        let rest = session_skipped(ss.drop_last());
        match session_item_id(ss.last()) {
            Some(_) => rest,
            None => rest.push(ss.last().engine_id),
        }
    }
}

/// Every key of `session_pairs` is an engine id of the descriptor.
proof fn lemma_session_pairs_keys(ss: Seq<SessionEntryV>)
    ensures
        forall|j: int|
            0 <= j < session_pairs(ss).len() ==> exists|i: int|
                0 <= i < ss.len() && (#[trigger] session_pairs(ss)[j]).0 == ss[i].engine_id,
    decreases ss.len(),
{
    if ss.len() > 0 {
        lemma_session_pairs_keys(ss.drop_last());
        assert forall|j: int|
            0 <= j < session_pairs(ss).len() implies exists|i: int|
            0 <= i < ss.len() && (#[trigger] session_pairs(ss)[j]).0 == ss[i].engine_id by {
            let rest = session_pairs(ss.drop_last());
            if j < rest.len() {
                let i0 = choose|i: int|
                    0 <= i < ss.drop_last().len() && rest[j].0 == ss.drop_last()[i].engine_id;
                assert(ss[i0] == ss.drop_last()[i0]);
                assert(session_pairs(ss)[j] == rest[j]);
            } else {
                assert(session_pairs(ss)[j].0 == ss[ss.len() - 1].engine_id);
            }
        }
    }
}

// ---------------------------------------------------------------------------
// The orchestrator
// ---------------------------------------------------------------------------

/// Bookkeeping for one download registered in this process lifetime.
pub struct ActiveDownload {
    pub item_id: String,
    pub engine_id: u64,
    pub channel: ProgressChannel,
}

/// Mathematical value of an [`ActiveDownload`].
#[verifier::ext_equal]
pub struct ActiveDownloadV {
    pub engine_id: u64,
    pub latest: TorrentStatsV,
    pub version: u64,
}

impl View for ActiveDownload {
    type V = ActiveDownloadV;

    open spec fn view(&self) -> ActiveDownloadV {
        ActiveDownloadV {
            engine_id: self.engine_id,
            latest: self.channel.latest@,
            version: self.channel.version,
        }
    }
}

/// The orchestrator's bookkeeping: the id-translation table, rebuilt from
/// the engine's session descriptor at startup, and the per-item progress
/// channels of the downloads registered in this process lifetime.
pub struct Orchestrator {
    pub translation: Vec<(u64, String)>,
    pub active: Vec<ActiveDownload>,
}

impl Orchestrator {
    /// The translation pairs, engine id to item id.
    pub open spec fn translation_pairs(&self) -> Seq<(u64, Seq<char>)> {
        self.translation@.map_values(|p: (u64, String)| (p.0, p.1@))
    }

    /// The translation table as a map.
    pub open spec fn translation_map(&self) -> Map<u64, Seq<char>> {
        map_of(self.translation_pairs())
    }

    /// The active downloads, item id to bookkeeping.
    pub open spec fn active_pairs(&self) -> Seq<(Seq<char>, ActiveDownloadV)> {
        self.active@.map_values(|a: ActiveDownload| (a.item_id@, a@))
    }

    /// The active downloads as a map.
    pub open spec fn active_map(&self) -> Map<Seq<char>, ActiveDownloadV> {
        map_of(self.active_pairs())
    }

    /// Engine ids and item ids are distinct in their tables.
    pub open spec fn wf(&self) -> bool {
        &&& distinct_keys(self.translation_pairs())
        &&& distinct_keys(self.active_pairs())
    }

    /// Builds the orchestrator from the engine's persisted session
    /// descriptor: for each entry, the sidecar record in its output folder
    /// recovers the stable item id. An entry whose record is missing or does
    /// not decode is skipped and reported back, so the caller can warn; the
    /// engine ids skipped can never be translated in this process lifetime.
    pub fn new(session: Vec<SessionEntry>) -> (r: (Orchestrator, Vec<u64>))
        requires
            distinct_keys(session@.map_values(|e: SessionEntry| (e@.engine_id, 0int))),
        ensures
            r.0.wf(),
            r.0.translation_pairs() == session_pairs(session@.map_values(|e: SessionEntry| e@)),
            r.0.translation_map() == map_of(
                session_pairs(session@.map_values(|e: SessionEntry| e@)),
            ),
            r.0.active_pairs() == Seq::<(Seq<char>, ActiveDownloadV)>::empty(),
            r.1@ == session_skipped(session@.map_values(|e: SessionEntry| e@)),
    {
        let ghost sv = session@.map_values(|e: SessionEntry| e@);
        let ghost keyed = session@.map_values(|e: SessionEntry| (e@.engine_id, 0int));
        let mut translation: Vec<(u64, String)> = Vec::new();
        let mut skipped: Vec<u64> = Vec::new();
        let mut i: usize = 0;
        proof {
            assert(sv.take(0) =~= Seq::<SessionEntryV>::empty());
        }
        while i < session.len()
            invariant
                i <= session@.len(),
                sv == session@.map_values(|e: SessionEntry| e@),
                keyed == session@.map_values(|e: SessionEntry| (e@.engine_id, 0int)),
                distinct_keys(keyed),
                sv.len() == session@.len(),
                keyed.len() == session@.len(),
                translation@.map_values(|p: (u64, String)| (p.0, p.1@)) == session_pairs(
                    sv.take(i as int),
                ),
                skipped@ == session_skipped(sv.take(i as int)),
            decreases session@.len() - i,
        {
            proof {
                assert(sv.take(i + 1).drop_last() =~= sv.take(i as int));
                assert(sv.take(i + 1).last() == sv[i as int]);
            }
            let entry = &session[i];
            let ghost tv_before = translation@.map_values(|p: (u64, String)| (p.0, p.1@));
            match &entry.meta_content {
                Some(content) => {
                    let chars = crate::text::chars_of(content.as_str());
                    match crate::metafile::Metafile::decode(&chars) {
                        Some(mf) => {
                            let ghost mfv = mf@;
                            translation.push((entry.engine_id, mf.source.id));
                            proof {
                                assert(session_item_id(sv[i as int]) == Some(mfv.source.id));
                                assert(translation@.map_values(|p: (u64, String)| (p.0, p.1@))
                                    =~= tv_before.push((sv[i as int].engine_id, mfv.source.id)));
                            }
                        },
                        None => {
                            skipped.push(entry.engine_id);
                        },
                    }
                },
                None => {
                    skipped.push(entry.engine_id);
                },
            }
            i = i + 1;
        }
        proof {
            assert(sv.take(sv.len() as int) =~= sv);
            assert(forall|j: int| 0 <= j < sv.len() ==> (#[trigger] keyed[j]).0 == sv[j].engine_id);
            lemma_session_pairs_distinct(sv, keyed);
        }
        let orch = Orchestrator { translation, active: Vec::new() };
        proof {
            assert(orch.active_pairs() =~= Seq::<(Seq<char>, ActiveDownloadV)>::empty());
        }
        (orch, skipped)
    }
}

impl Orchestrator {
    /// Index of the translation pair for `engine_id`, if any.
    fn translation_position(&self, engine_id: u64) -> (r: Option<usize>)
        ensures
            match r {
                Some(i) => i < self.translation_pairs().len() && self.translation_pairs()[
                    i as int
                ].0 == engine_id,
                None => forall|i: int|
                    0 <= i < self.translation_pairs().len() ==> self.translation_pairs()[i].0
                        != engine_id,
            },
    {
        let mut i: usize = 0;
        while i < self.translation.len()
            invariant
                i <= self.translation@.len(),
                self.translation_pairs().len() == self.translation@.len(),
                forall|j: int| 0 <= j < i ==> self.translation_pairs()[j].0 != engine_id,
            decreases self.translation@.len() - i,
        {
            if self.translation[i].0 == engine_id {
                return Some(i);
            }
            i = i + 1;
        }
        None
    }

    /// Index of the active download for `item_id`, if any.
    fn active_position(&self, item_id: &String) -> (r: Option<usize>)
        ensures
            match r {
                Some(i) => i < self.active_pairs().len() && self.active_pairs()[i as int].0
                    == item_id@,
                None => forall|i: int|
                    0 <= i < self.active_pairs().len() ==> self.active_pairs()[i].0 != item_id@,
            },
    {
        let mut i: usize = 0;
        while i < self.active.len()
            invariant
                i <= self.active@.len(),
                self.active_pairs().len() == self.active@.len(),
                forall|j: int| 0 <= j < i ==> self.active_pairs()[j].0 != item_id@,
            decreases self.active@.len() - i,
        {
            if self.active[i].item_id == *item_id {
                return Some(i);
            }
            i = i + 1;
        }
        None
    }

    /// Records a freshly registered download: the engine's id now translates
    /// to `item_id`, and a progress channel seeded with `initial` starts its
    /// bookkeeping.
    pub fn register_download(&mut self, item_id: &str, engine_id: u64, initial: TorrentStats)
        requires
            old(self).wf(),
        ensures
            final(self).wf(),
            final(self).translation_pairs() == set_assoc(
                old(self).translation_pairs(),
                engine_id,
                item_id@,
            ),
            final(self).translation_map() == old(self).translation_map().insert(
                engine_id,
                item_id@,
            ),
            final(self).active_pairs() == set_assoc(
                old(self).active_pairs(),
                item_id@,
                (ActiveDownloadV { engine_id, latest: initial@, version: 0 }),
            ),
            final(self).active_map() == old(self).active_map().insert(
                item_id@,
                (ActiveDownloadV { engine_id, latest: initial@, version: 0 }),
            ),
    {
        let id_owned = item_id.to_owned();
        let ghost initial_v = initial@;
        // translation table
        let tpos = self.translation_position(engine_id);
        match tpos {
            Some(i) => {
                proof {
                    lemma_set_assoc_update(self.translation_pairs(), i as int, item_id@);
                    lemma_map_of_update(self.translation_pairs(), i as int, item_id@);
                }
                self.translation.set(i, (engine_id, id_owned.clone()));
                proof {
                    assert(self.translation_pairs() =~= old(self).translation_pairs().update(
                        i as int,
                        (engine_id, item_id@),
                    ));
                }
            },
            None => {
                proof {
                    lemma_set_assoc_push(self.translation_pairs(), engine_id, item_id@);
                    lemma_map_of_push(self.translation_pairs(), engine_id, item_id@);
                }
                self.translation.push((engine_id, id_owned.clone()));
                proof {
                    assert(self.translation_pairs() =~= old(self).translation_pairs().push(
                        (engine_id, item_id@),
                    ));
                    assert forall|a: int, b: int|
                        0 <= a < b < self.translation_pairs().len() implies self.translation_pairs()[
                        a
                    ].0 != self.translation_pairs()[b].0 by {
                        if b == self.translation_pairs().len() - 1 {
                            assert(self.translation_pairs()[a].0 != engine_id);
                        }
                    }
                }
            },
        }
        // active table
        let download = ActiveDownload {
            item_id: id_owned,
            engine_id,
            channel: ProgressChannel::new(initial),
        };
        let ghost before_active = self.active_pairs();
        let apos = self.active_position(&download.item_id);
        match apos {
            Some(i) => {
                proof {
                    lemma_set_assoc_update(self.active_pairs(), i as int, download@);
                    lemma_map_of_update(self.active_pairs(), i as int, download@);
                }
                self.active.set(i, download);
                proof {
                    assert(self.active_pairs() =~= before_active.update(
                        i as int,
                        (item_id@, (ActiveDownloadV { engine_id, latest: initial_v, version: 0 })),
                    ));
                }
            },
            None => {
                proof {
                    lemma_set_assoc_push(self.active_pairs(), item_id@, download@);
                    lemma_map_of_push(self.active_pairs(), item_id@, download@);
                }
                self.active.push(download);
                proof {
                    assert(self.active_pairs() =~= before_active.push(
                        (item_id@, (ActiveDownloadV { engine_id, latest: initial_v, version: 0 })),
                    ));
                    assert forall|a: int, b: int|
                        0 <= a < b < self.active_pairs().len() implies self.active_pairs()[a].0
                        != self.active_pairs()[b].0 by {
                        if b == self.active_pairs().len() - 1 {
                            assert(self.active_pairs()[a].0 != item_id@);
                        }
                    }
                }
            },
        }
    }

    /// Tears down the bookkeeping of a finished download: its channel and
    /// its translation entry go away; the downloaded files and the sidecar
    /// record persist. Returns the engine id that was associated.
    pub fn complete(&mut self, item_id: &str) -> (r: Result<u64, AppError>)
        requires
            old(self).wf(),
        ensures
            final(self).wf(),
            match r {
                Ok(engine_id) => old(self).active_map().contains_key(item_id@) && engine_id
                    == old(self).active_map()[item_id@].engine_id
                    && final(self).active_pairs() == remove_assoc(
                    old(self).active_pairs(),
                    item_id@,
                ) && final(self).active_map() == old(self).active_map().remove(item_id@)
                    && final(self).translation_pairs() == remove_assoc(
                    old(self).translation_pairs(),
                    engine_id,
                ) && final(self).translation_map() == old(self).translation_map().remove(
                    engine_id,
                ),
                Err(e) => e == AppError::MissingDownload && !old(self).active_map().contains_key(
                    item_id@,
                ) && *final(self) == *old(self),
            },
    {
        let id_owned = item_id.to_owned();
        proof {
            lemma_map_of_contains_key(self.active_pairs(), item_id@);
        }
        let apos = self.active_position(&id_owned);
        let i = match apos {
            Some(i) => i,
            None => {
                return Err(AppError::MissingDownload);
            },
        };
        proof {
            lemma_map_of_index(self.active_pairs(), i as int);
            lemma_map_of_remove(self.active_pairs(), i as int);
            lemma_remove_assoc_at(self.active_pairs(), i as int);
        }
        let engine_id = self.active[i].engine_id;
        self.active.remove(i);
        proof {
            assert(self.active_pairs() =~= old(self).active_pairs().remove(i as int));
        }
        let tpos = self.translation_position(engine_id);
        match tpos {
            Some(j) => {
                proof {
                    lemma_map_of_remove(self.translation_pairs(), j as int);
                    lemma_remove_assoc_at(self.translation_pairs(), j as int);
                }
                self.translation.remove(j);
                proof {
                    assert(self.translation_pairs() =~= old(self).translation_pairs().remove(
                        j as int,
                    ));
                }
            },
            None => {
                proof {
                    lemma_remove_assoc_absent(self.translation_pairs(), engine_id);
                    lemma_map_of_contains_key(self.translation_pairs(), engine_id);
                    assert(self.translation_map() =~= self.translation_map().remove(engine_id));
                }
            },
        }
        Ok(engine_id)
    }

    /// A new observer of an active download's progress: it holds the latest
    /// snapshot immediately, no older than the most recent tick. `None`
    /// when no bookkeeping exists in this process lifetime.
    pub fn get_progress_channel(&self, item_id: &str) -> (r: Option<ProgressReceiver>)
        requires
            self.wf(),
        ensures
            match r {
                Some(rec) => self.active_map().contains_key(item_id@) && rec.current@
                    == self.active_map()[item_id@].latest && rec.last_version == self.active_map()[
                    item_id@
                ].version,
                None => !self.active_map().contains_key(item_id@),
            },
    {
        let id_owned = item_id.to_owned();
        proof {
            lemma_map_of_contains_key(self.active_pairs(), item_id@);
        }
        let apos = self.active_position(&id_owned);
        match apos {
            Some(i) => {
                proof {
                    lemma_map_of_index(self.active_pairs(), i as int);
                }
                Some(self.active[i].channel.subscribe())
            },
            None => None,
        }
    }

    /// Publishes one monitoring tick for an active download.
    pub fn publish_tick(&mut self, item_id: &str, stats: TorrentStats) -> (r: Result<
        (),
        AppError,
    >)
        requires
            old(self).wf(),
        ensures
            final(self).wf(),
            final(self).translation_pairs() == old(self).translation_pairs(),
            match r {
                Ok(_) => ({
                    let a = old(self).active_map()[item_id@];
                    &&& old(self).active_map().contains_key(item_id@)
                    &&& final(self).active_pairs() == set_assoc(
                        old(self).active_pairs(),
                        item_id@,
                        (ActiveDownloadV {
                            engine_id: a.engine_id,
                            latest: stats@,
                            version: if a.version < u64::MAX {
                                (a.version + 1) as u64
                            } else {
                                a.version
                            },
                        }),
                    )
                }),
                Err(e) => e == AppError::MissingDownload && !old(self).active_map().contains_key(
                    item_id@,
                ) && *final(self) == *old(self),
            },
    {
        let id_owned = item_id.to_owned();
        proof {
            lemma_map_of_contains_key(self.active_pairs(), item_id@);
        }
        let apos = self.active_position(&id_owned);
        let i = match apos {
            Some(i) => i,
            None => {
                return Err(AppError::MissingDownload);
            },
        };
        proof {
            lemma_map_of_index(self.active_pairs(), i as int);
        }
        let engine_id = self.active[i].engine_id;
        let version = self.active[i].channel.version;
        let bumped: u64 = if version < u64::MAX {
            version + 1
        } else {
            version
        };
        let replacement = ActiveDownload {
            item_id: self.active[i].item_id.clone(),
            engine_id,
            channel: ProgressChannel { latest: stats, version: bumped },
        };
        proof {
            lemma_set_assoc_update(self.active_pairs(), i as int, replacement@);
            lemma_map_of_update(self.active_pairs(), i as int, replacement@);
        }
        self.active.set(i, replacement);
        proof {
            assert(self.active_pairs() =~= old(self).active_pairs().update(
                i as int,
                (item_id@, old(self).active_pairs()[i as int].1),
            ).update(i as int, self.active_pairs()[i as int]));
            assert(self.active_pairs() =~= set_assoc(
                old(self).active_pairs(),
                item_id@,
                self.active_pairs()[i as int].1,
            ));
        }
        Ok(())
    }

    /// The engine id an active download is registered under, for pause and
    /// resume requests to the engine.
    pub fn engine_id_of(&self, item_id: &str) -> (r: Option<u64>)
        requires
            self.wf(),
        ensures
            match r {
                Some(engine_id) => self.active_map().contains_key(item_id@) && engine_id
                    == self.active_map()[item_id@].engine_id,
                None => !self.active_map().contains_key(item_id@),
            },
    {
        let id_owned = item_id.to_owned();
        proof {
            lemma_map_of_contains_key(self.active_pairs(), item_id@);
        }
        let apos = self.active_position(&id_owned);
        match apos {
            Some(i) => {
                proof {
                    lemma_map_of_index(self.active_pairs(), i as int);
                }
                Some(self.active[i].engine_id)
            },
            None => None,
        }
    }

    /// The item id an engine-internal id translates to, if the table knows
    /// it.
    pub fn translate(&self, engine_id: u64) -> (r: Option<String>)
        requires
            self.wf(),
        ensures
            match r {
                Some(id) => self.translation_map().contains_key(engine_id) && id@
                    == self.translation_map()[engine_id],
                None => !self.translation_map().contains_key(engine_id),
            },
    {
        proof {
            lemma_map_of_contains_key(self.translation_pairs(), engine_id);
        }
        let tpos = self.translation_position(engine_id);
        match tpos {
            Some(i) => {
                proof {
                    lemma_map_of_index(self.translation_pairs(), i as int);
                }
                Some(self.translation[i].1.clone())
            },
            None => None,
        }
    }

    /// One snapshot per engine-tracked download whose id the table can
    /// translate; an entry the table cannot translate is skipped rather
    /// than stopping the listing.
    pub fn list_active(&self, engine: &Vec<(u64, EngineStats)>) -> (r: Vec<TorrentStats>)
        requires
            self.wf(),
        ensures
            r@.map_values(|t: TorrentStats| t@) == list_stats(
                self.translation_map(),
                engine@.map_values(|p: (u64, EngineStats)| (p.0, p.1@)),
            ),
    {
        let ghost es = engine@.map_values(|p: (u64, EngineStats)| (p.0, p.1@));
        let mut r: Vec<TorrentStats> = Vec::new();
        let mut i: usize = 0;
        proof {
            assert(es.take(0) =~= Seq::<(u64, EngineStatsV)>::empty());
            assert(r@.map_values(|t: TorrentStats| t@) =~= list_stats(
                self.translation_map(),
                es.take(0),
            ));
        }
        while i < engine.len()
            invariant
                i <= engine@.len(),
                self.wf(),
                es == engine@.map_values(|p: (u64, EngineStats)| (p.0, p.1@)),
                es.len() == engine@.len(),
                r@.map_values(|t: TorrentStats| t@) == list_stats(
                    self.translation_map(),
                    es.take(i as int),
                ),
            decreases engine@.len() - i,
        {
            proof {
                assert(es.take(i + 1).drop_last() =~= es.take(i as int));
                assert(es.take(i + 1).last() == es[i as int]);
            }
            let ghost before = r@.map_values(|t: TorrentStats| t@);
            let translated = self.translate(engine[i].0);
            match translated {
                Some(id) => {
                    let stats = to_stats(id, &engine[i].1);
                    r.push(stats);
                    proof {
                        assert(r@.map_values(|t: TorrentStats| t@) =~= before.push(
                            stats_of(self.translation_map()[es[i as int].0], es[i as int].1),
                        ));
                    }
                },
                None => {
                },
            }
            i = i + 1;
        }
        proof {
            assert(es.take(es.len() as int) =~= es);
        }
        r
    }
}

/// The snapshots a translation table yields for the engine's own list: one
/// per translatable entry, in the engine's order.
pub open spec fn list_stats(m: Map<u64, Seq<char>>, es: Seq<(u64, EngineStatsV)>) -> Seq<
    TorrentStatsV,
>
    decreases es.len(),
{
    if es.len() == 0 {
        Seq::empty()
    } else {
        let rest = list_stats(m, es.drop_last());
        if m.contains_key(es.last().0) {
            rest.push(stats_of(m[es.last().0], es.last().1))
        } else {
            rest
        }
    }
}

/// Restart reconciliation rebuilds the full table: when every entry of the
/// session descriptor points at a folder whose sidecar record decodes, the
/// table has exactly one mapping per entry, sending each engine id to that
/// entry's item id.
pub proof fn lemma_reconciliation_rebuilds_table(ss: Seq<SessionEntryV>)
    requires
        forall|i: int, j: int| 0 <= i < j < ss.len() ==> ss[i].engine_id != ss[j].engine_id,
        forall|i: int| 0 <= i < ss.len() ==> session_item_id(#[trigger] ss[i]) is Some,
    ensures
        map_of(session_pairs(ss)).dom().finite(),
        map_of(session_pairs(ss)).len() == ss.len(),
        forall|i: int|
            0 <= i < ss.len() ==> map_of(session_pairs(ss)).contains_key(
                (#[trigger] ss[i]).engine_id,
            ) && map_of(session_pairs(ss))[ss[i].engine_id] == session_item_id(ss[i]).unwrap(),
{
    lemma_session_pairs_all(ss);
    let p = session_pairs(ss);
    assert(distinct_keys(p));
    lemma_map_of_len(p);
    assert forall|i: int|
        0 <= i < ss.len() implies map_of(p).contains_key((#[trigger] ss[i]).engine_id) && map_of(
        p,
    )[ss[i].engine_id] == session_item_id(ss[i]).unwrap() by {
        assert(p[i] == (ss[i].engine_id, session_item_id(ss[i]).unwrap()));
        lemma_map_of_index(p, i);
    }
}

/// When every entry decodes, the session's pairs line up with its entries.
proof fn lemma_session_pairs_all(ss: Seq<SessionEntryV>)
    requires
        forall|i: int| 0 <= i < ss.len() ==> session_item_id(#[trigger] ss[i]) is Some,
    ensures
        session_pairs(ss).len() == ss.len(),
        forall|i: int|
            0 <= i < ss.len() ==> #[trigger] session_pairs(ss)[i] == (
                ss[i].engine_id,
                session_item_id(ss[i]).unwrap(),
            ),
    decreases ss.len(),
{
    if ss.len() > 0 {
        assert(forall|i: int|
            0 <= i < ss.drop_last().len() ==> #[trigger] ss.drop_last()[i] == ss[i]);
        lemma_session_pairs_all(ss.drop_last());
        let rest = session_pairs(ss.drop_last());
        assert(session_pairs(ss) == rest.push(
            (ss.last().engine_id, session_item_id(ss.last()).unwrap()),
        ));
    }
}

/// With distinct engine ids, the pairs a session yields have distinct keys.
proof fn lemma_session_pairs_distinct(ss: Seq<SessionEntryV>, keyed: Seq<(u64, int)>)
    requires
        keyed.len() == ss.len(),
        forall|i: int| 0 <= i < ss.len() ==> (#[trigger] keyed[i]).0 == ss[i].engine_id,
        distinct_keys(keyed),
    ensures
        distinct_keys(session_pairs(ss)),
    decreases ss.len(),
{
    if ss.len() > 0 {
        lemma_session_pairs_distinct(ss.drop_last(), keyed.drop_last());
        let rest = session_pairs(ss.drop_last());
        lemma_session_pairs_keys(ss.drop_last());
        match session_item_id(ss.last()) {
            Some(id) => {
                let p = session_pairs(ss);
                assert(p == rest.push((ss.last().engine_id, id)));
                assert forall|a: int, b: int|
                    0 <= a < b < p.len() implies p[a].0 != p[b].0 by {
                    if b < p.len() - 1 {
                        assert(p[a] == rest[a] && p[b] == rest[b]);
                    } else {
                        assert(p[a] == rest[a]);
                        let ia = choose|i: int|
                            0 <= i < ss.drop_last().len() && rest[a].0 == ss.drop_last()[i].engine_id;
                        assert(keyed[ia].0 == ss[ia].engine_id);
                        assert(keyed[ss.len() - 1].0 == ss.last().engine_id);
                        assert(keyed[ia].0 != keyed[ss.len() - 1].0);
                    }
                }
            },
            None => {
            },
        }
    }
}

} // verus!
