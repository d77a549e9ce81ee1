//! The change detector and the bookkeeping around the durable local state.
//!
//! The detector compares a fresh filesystem snapshot against the records of
//! the last synchronized state and produces the ordered list of changes to
//! push. The appliers mutate the state once the surrounding program reports
//! how the corresponding remote or local action went.

use vstd::prelude::*;

use crate::model::ChangePatch;
use crate::model::ChangeType;
use crate::model::FileChange;
use crate::model::FileChangeView;
use crate::model::FileDefinition;
use crate::model::FileDefinitionView;
use crate::model::LocalState;
use crate::model::LocalStateView;
use crate::model::SyncError;
use crate::model::changes_view;
use crate::model::clone_opt_string;
use crate::model::defs_view;
use crate::model::opt_view;
use crate::util::Util;
use crate::util::spec_have_changed;
use crate::util::spec_same_file;

verus! {

/// The first stored record denoting the same logical file as `fd`, by the
/// `(name, path)` identity.
pub open spec fn spec_find_match(
    stored: Seq<FileDefinitionView>,
    fd: FileDefinitionView,
) -> Option<FileDefinitionView>
    decreases stored.len(),
{
    if stored.len() == 0 {
        None
    } else if spec_same_file(stored[0], fd) {
        Some(stored[0])
    } else {
        spec_find_match(stored.drop_first(), fd)
    }
}

/// The record with its id replaced.
pub open spec fn with_id(fd: FileDefinitionView, id: Option<Seq<char>>) -> FileDefinitionView {
    FileDefinitionView { id, ..fd }
}

/// What one scanned record contributes to the change list: a `Create` when
/// no stored record matches it, an `Update` (carrying the scanned values and
/// the matched id) when the match differs, nothing when the match agrees.
pub open spec fn spec_change_for(
    stored: Seq<FileDefinitionView>,
    s: FileDefinitionView,
) -> Seq<FileChangeView> {
    match spec_find_match(stored, s) {
        None => seq![
            FileChangeView { file: with_id(s, None), change: ChangeType::Create },
        ],
        Some(t) => if spec_have_changed(s, t) {
            seq![FileChangeView { file: with_id(s, t.id), change: ChangeType::Update }]
        } else {
            Seq::empty()
        },
    }
}

/// The creates and updates a snapshot yields, in scan order.
pub open spec fn spec_scan_changes(
    stored: Seq<FileDefinitionView>,
    scanned: Seq<FileDefinitionView>,
) -> Seq<FileChangeView>
    decreases scanned.len(),
{
    if scanned.len() == 0 {
        Seq::empty()
    } else {
        spec_scan_changes(stored, scanned.drop_last()) + spec_change_for(stored, scanned.last())
    }
}

/// Whether some scanned record denotes the same logical file as `t`.
pub open spec fn spec_seen(scanned: Seq<FileDefinitionView>, t: FileDefinitionView) -> bool {
    exists|i: int| 0 <= i < scanned.len() && spec_same_file(scanned[i], t)
}

/// The deletes a snapshot yields: one per stored record with no filesystem
/// counterpart, in stored order.
pub open spec fn spec_delete_changes(
    stored: Seq<FileDefinitionView>,
    scanned: Seq<FileDefinitionView>,
) -> Seq<FileChangeView>
    decreases stored.len(),
{
    if stored.len() == 0 {
        Seq::empty()
    } else {
        spec_delete_changes(stored.drop_last(), scanned) + if spec_seen(scanned, stored.last()) {
            Seq::empty()
        } else {
            seq![FileChangeView { file: stored.last(), change: ChangeType::Delete }]
        }
    }
}

/// The whole change list: creates and updates in scan order, then deletes in
/// stored order.
pub open spec fn spec_changes(
    stored: Seq<FileDefinitionView>,
    scanned: Seq<FileDefinitionView>,
) -> Seq<FileChangeView> {
    spec_scan_changes(stored, scanned) + spec_delete_changes(stored, scanned)
}

/// `spec_find_match` returns the first match, and only then.
proof fn lemma_find_match_at(stored: Seq<FileDefinitionView>, fd: FileDefinitionView, j: int)
    requires
        0 <= j < stored.len(),
        spec_same_file(stored[j], fd),
        forall|k: int| 0 <= k < j ==> !spec_same_file(#[trigger] stored[k], fd),
    ensures
        spec_find_match(stored, fd) == Some(stored[j]),
    decreases j,
{
    if j > 0 {
        let rest = stored.drop_first();
        assert(forall|i: int| 0 <= i < rest.len() ==> rest[i] == stored[i + 1]);
        lemma_find_match_at(rest, fd, j - 1);
    }
}

/// Without any match, `spec_find_match` finds nothing.
proof fn lemma_find_match_none(stored: Seq<FileDefinitionView>, fd: FileDefinitionView)
    requires
        forall|k: int| 0 <= k < stored.len() ==> !spec_same_file(#[trigger] stored[k], fd),
    ensures
        spec_find_match(stored, fd) is None,
    decreases stored.len(),
{
    if stored.len() > 0 {
        let rest = stored.drop_first();
        assert(forall|i: int| 0 <= i < rest.len() ==> rest[i] == stored[i + 1]);
        lemma_find_match_none(rest, fd);
    }
}

/// A found match denotes the same logical file and lies in the stored
/// records.
pub proof fn lemma_find_match_props(stored: Seq<FileDefinitionView>, fd: FileDefinitionView)
    ensures
        match spec_find_match(stored, fd) {
            Some(t) => spec_same_file(t, fd) && exists|i: int|
                0 <= i < stored.len() && stored[i] == t,
            None => forall|k: int| 0 <= k < stored.len() ==> !spec_same_file(
                #[trigger] stored[k],
                fd,
            ),
        },
    decreases stored.len(),
{
    if stored.len() > 0 && spec_same_file(stored[0], fd) {
        let t = spec_find_match(stored, fd)->Some_0;
        assert(t == stored[0]);
        assert(exists|i: int| 0 <= i < stored.len() && stored[i] == t) by {
            assert(stored[0] == t);
        }
    } else if stored.len() > 0 {
        let rest = stored.drop_first();
        assert(forall|i: int| 0 <= i < rest.len() ==> rest[i] == stored[i + 1]);
        lemma_find_match_props(rest, fd);
        match spec_find_match(stored, fd) {
            Some(t) => {
                let i = choose|i: int| 0 <= i < rest.len() && rest[i] == t;
                assert(stored[i + 1] == t);
                assert(exists|w: int| 0 <= w < stored.len() && stored[w] == t) by {
                    assert(stored[i + 1] == t);
                }
            },
            None => {
                assert forall|k: int|
                    0 <= k < stored.len() implies !spec_same_file(#[trigger] stored[k], fd) by {
                    if k > 0 {
                        assert(rest[k - 1] == stored[k]);
                        assert(!spec_same_file(rest[k - 1], fd));
                    }
                }
            },
        }
    }
}

/// The first index in `stored` denoting the same logical file as `fd`, if
/// any; used to connect the executable search with `spec_find_match`.
fn find_match_index(stored: &Vec<FileDefinition>, fd: &FileDefinition) -> (r: Option<usize>)
    ensures
        match r {
            Some(j) => j < stored.len() && spec_find_match(defs_view(stored@), fd@) == Some(
                stored@[j as int]@,
            ),
            None => spec_find_match(defs_view(stored@), fd@) is None,
        },
{
    let n = stored.len();
    let mut i: usize = 0;
    while i < n
        invariant
            n == stored.len(),
            i <= n,
            forall|k: int|
                0 <= k < i ==> !spec_same_file(#[trigger] defs_view(stored@)[k], fd@),
        decreases n - i,
    {
        if Util::same_file(&stored[i], fd) {
            proof {
                lemma_find_match_at(defs_view(stored@), fd@, i as int);
            }
            return Some(i);
        }
        i = i + 1;
    }
    proof {
        lemma_find_match_none(defs_view(stored@), fd@);
    }
    None
}

/// Whether some record in `scanned` denotes the same logical file as `t`, as
/// `spec_seen` says.
fn is_seen(scanned: &Vec<FileDefinition>, t: &FileDefinition) -> (r: bool)
    ensures
        r == spec_seen(defs_view(scanned@), t@),
{
    let n = scanned.len();
    let mut i: usize = 0;
    while i < n
        invariant
            n == scanned.len(),
            i <= n,
            forall|k: int|
                0 <= k < i ==> !spec_same_file(#[trigger] defs_view(scanned@)[k], t@),
        decreases n - i,
    {
        if Util::same_file(&scanned[i], t) {
            proof {
                assert(spec_same_file(defs_view(scanned@)[i as int], t@));
            }
            return true;
        }
        i = i + 1;
    }
    false
}

/// The holder of the durable local state during a sync cycle.
pub struct StateManager {
    pub local_state: LocalState,
}

impl View for StateManager {
    type V = LocalStateView;

    open spec fn view(&self) -> LocalStateView {
        self.local_state@
    }
}

impl StateManager {
    /// Start a sync session from the raw content of the reserved state file:
    /// an absent file is no error and yields the empty state at revision 0;
    /// content that does not decode is a serialization error.
    pub fn load_default(raw: Option<&str>) -> (r: Result<StateManager, SyncError>)
        ensures
            match r {
                Ok(m) => match raw {
                    None => m@.revision == 0 && m@.files == Seq::<FileDefinitionView>::empty(),
                    Some(s) => crate::codec::spec_decode_state(s@) == Some(m@),
                },
                Err(e) => raw is Some && crate::codec::spec_decode_state(raw->0@) is None && e
                    == SyncError::SerializationError,
            },
    {
        match raw {
            None => {
                let st = LocalState { revision: 0, files: Vec::new() };
                assert(st@.files =~= Seq::<FileDefinitionView>::empty());
                Ok(StateManager { local_state: st })
            },
            Some(s) => match Self::load_state(s) {
                Ok(st) => Ok(StateManager { local_state: st }),
                Err(e) => Err(e),
            },
        }
    }

    /// Decode a persisted state; malformed content is a serialization
    /// error, exactly when [`crate::codec::spec_decode_state`] rejects it.
    pub fn load_state(raw: &str) -> (r: Result<LocalState, SyncError>)
        ensures
            match (r, crate::codec::spec_decode_state(raw@)) {
                (Ok(v), Some(sv)) => v@ == sv,
                (Err(e), None) => e == SyncError::SerializationError,
                _ => false,
            },
    {
        match crate::codec::decode_state(raw) {
            Some(st) => Ok(st),
            None => Err(SyncError::SerializationError),
        }
    }

    /// The persisted form of the state, written whole after each sync
    /// cycle.
    pub fn save_state(&self) -> (r: String)
        ensures
            r@ == crate::codec::spec_encode_state(self@),
    {
        crate::codec::encode_state(&self.local_state)
    }

    /// The path of the reserved state file under `base`, joined as
    /// [`crate::util::spec_join`] says (no doubled separator).
    pub fn get_save_state_path(base: &str) -> (r: String)
        ensures
            r@ == crate::util::spec_join(base@, crate::util::STATE_FILE_NAME@),
    {
        let mut s = String::from_str(base);
        crate::util::push_component(&mut s, crate::util::STATE_FILE_NAME);
        s
    }

    /// The last revision the server confirmed.
    pub fn get_revision(&self) -> (r: u64)
        ensures
            r == self@.revision,
    {
        self.local_state.revision
    }

    /// A copy of the tracked records.
    pub fn get_local_file_definitions(&self) -> (r: Vec<FileDefinition>)
        ensures
            defs_view(r@) == self@.files,
    {
        let mut out: Vec<FileDefinition> = Vec::new();
        let n = self.local_state.files.len();
        let mut i: usize = 0;
        while i < n
            invariant
                n == self.local_state.files.len(),
                i <= n,
                out@.len() == i,
                defs_view(out@) =~= self@.files.subrange(0, i as int),
            decreases n - i,
        {
            let ghost pre_out = out@;
            out.push(self.local_state.files[i].clone());
            proof {
                assert forall|k: int| 0 <= k < i + 1 implies defs_view(out@)[k] == self@.files[k] by {
                    assert(defs_view(out@)[k] == out@[k]@);
                    if k < i {
                        assert(out@[k] == pre_out[k]);
                        assert(defs_view(pre_out)[k] == self@.files.subrange(0, i as int)[k]);
                    }
                }
                assert(defs_view(out@) =~= self@.files.subrange(0, i + 1 as int));
            }
            i = i + 1;
        }
        assert(defs_view(out@) =~= self@.files);
        out
    }

    /// The id a scanned record inherits from the stored record denoting the
    /// same logical file, when there is one and it has an id.
    pub fn get_id_for_file(&self, fd: &FileDefinition) -> (r: Option<String>)
        ensures
            opt_view(r) == (match spec_find_match(self@.files, fd@) {
                Some(t) => t.id,
                None => None::<Seq<char>>,
            }),
    {
        match find_match_index(&self.local_state.files, fd) {
            Some(j) => clone_opt_string(&self.local_state.files[j].id),
            None => None,
        }
    }

    /// The scanned snapshot with every record's id resolved against the
    /// stored records: a record inherits the id of its `(name, path)` match,
    /// and keeps none when nothing matches.
    pub fn get_actual_fs_state(&self, scanned: &Vec<FileDefinition>) -> (r: Vec<FileDefinition>)
        ensures
            r@.len() == scanned@.len(),
            forall|i: int|
                0 <= i < scanned@.len() ==> #[trigger] defs_view(r@)[i] == with_id(
                    defs_view(scanned@)[i],
                    match spec_find_match(self@.files, defs_view(scanned@)[i]) {
                        Some(t) => t.id,
                        None => None::<Seq<char>>,
                    },
                ),
    {
        let mut out: Vec<FileDefinition> = Vec::new();
        let n = scanned.len();
        let mut i: usize = 0;
        while i < n
            invariant
                n == scanned.len(),
                i <= n,
                out@.len() == i,
                forall|k: int|
                    0 <= k < i ==> #[trigger] defs_view(out@)[k] == with_id(
                        defs_view(scanned@)[k],
                        match spec_find_match(self@.files, defs_view(scanned@)[k]) {
                            Some(t) => t.id,
                            None => None::<Seq<char>>,
                        },
                    ),
            decreases n - i,
        {
            let ghost pre_out = out@;
            let mut rec = scanned[i].clone();
            rec.id = self.get_id_for_file(&scanned[i]);
            out.push(rec);
            proof {
                assert forall|k: int|
                    0 <= k < i + 1 implies #[trigger] defs_view(out@)[k] == with_id(
                    defs_view(scanned@)[k],
                    match spec_find_match(self@.files, defs_view(scanned@)[k]) {
                        Some(t) => t.id,
                        None => None::<Seq<char>>,
                    },
                ) by {
                    assert(defs_view(out@)[k] == out@[k]@);
                    if k < i {
                        assert(out@[k] == pre_out[k]);
                        assert(defs_view(pre_out)[k] == pre_out[k]@);
                    } else {
                        assert(defs_view(scanned@)[k] == scanned@[k]@);
                    }
                }
            }
            i = i + 1;
        }
        out
    }

    /// The change detector: diff a fresh snapshot against the stored
    /// records. Ids carried by the snapshot are ignored and re-resolved by
    /// the `(name, path)` identity, so the result is exactly
    /// [`spec_changes`] of the two record lists.
    pub fn get_changes(&self, fs_defs: &Vec<FileDefinition>) -> (res: Vec<FileChange>)
        ensures
            changes_view(res@) == spec_changes(self@.files, defs_view(fs_defs@)),
    {
        let ghost stored = self@.files;
        let ghost scanned = defs_view(fs_defs@);
        let mut res: Vec<FileChange> = Vec::new();
        let n = fs_defs.len();
        let mut i: usize = 0;
        while i < n
            invariant
                n == fs_defs.len(),
                i <= n,
                stored == self@.files,
                scanned == defs_view(fs_defs@),
                changes_view(res@) =~= spec_scan_changes(stored, scanned.subrange(0, i as int)),
            decreases n - i,
        {
            let ghost pre = res@;
            match find_match_index(&self.local_state.files, &fs_defs[i]) {
                None => {
                    let mut rec = fs_defs[i].clone();
                    rec.id = None;
                    res.push(FileChange::new(rec, ChangeType::Create));
                    proof {
                        crate::model::lemma_changes_view_push(pre, res@.last());
                    }
                },
                Some(j) => {
                    if Util::have_changed(&fs_defs[i], &self.local_state.files[j]) {
                        let mut rec = fs_defs[i].clone();
                        rec.id = clone_opt_string(&self.local_state.files[j].id);
                        res.push(FileChange::new(rec, ChangeType::Update));
                        proof {
                            crate::model::lemma_changes_view_push(pre, res@.last());
                        }
                    }
                },
            }
            proof {
                assert(defs_view(fs_defs@)[i as int] == fs_defs@[i as int]@);
                let prefix1 = scanned.subrange(0, i + 1 as int);
                assert(prefix1.drop_last() =~= scanned.subrange(0, i as int));
                assert(prefix1.last() == scanned[i as int]);
                assert(changes_view(res@) =~= changes_view(pre) + spec_change_for(
                    stored,
                    scanned[i as int],
                ));
            }
            i = i + 1;
        }
        assert(scanned.subrange(0, n as int) =~= scanned);
        let m = self.local_state.files.len();
        let mut j: usize = 0;
        while j < m
            invariant
                m == self.local_state.files.len(),
                j <= m,
                n == fs_defs.len(),
                stored == self@.files,
                scanned == defs_view(fs_defs@),
                changes_view(res@) =~= spec_scan_changes(stored, scanned) + spec_delete_changes(
                    stored.subrange(0, j as int),
                    scanned,
                ),
            decreases m - j,
        {
            let ghost pre = res@;
            if !is_seen(fs_defs, &self.local_state.files[j]) {
                res.push(FileChange::new(self.local_state.files[j].clone(), ChangeType::Delete));
                proof {
                    crate::model::lemma_changes_view_push(pre, res@.last());
                }
            }
            proof {
                assert(self@.files[j as int] == self.local_state.files@[j as int]@);
                let prefix1 = stored.subrange(0, j + 1 as int);
                assert(prefix1.drop_last() =~= stored.subrange(0, j as int));
                assert(prefix1.last() == stored[j as int]);
                assert(changes_view(res@) =~= spec_scan_changes(stored, scanned)
                    + spec_delete_changes(prefix1, scanned));
            }
            j = j + 1;
        }
        proof {
            assert(stored.subrange(0, m as int) =~= stored);
            assert(changes_view(res@) =~= spec_changes(stored, scanned));
        }
        res
    }

    /// Bookkeeping for a create (both directions): a successful remote
    /// create hands back the record with its new id, which is added to the
    /// state; a failure leaves the state alone. The content upload that
    /// follows a successful create never touches the state: the record is
    /// kept even when that upload fails.
    pub fn sync_create_file(&mut self, created: &Result<FileDefinition, SyncError>)
        ensures
            final(self)@.revision == old(self)@.revision,
            match created {
                Ok(fd) => final(self)@.files == old(self)@.files.push(fd@),
                Err(_) => final(self)@ == old(self)@,
            },
    {
        match created {
            Ok(fd) => self.local_state.add_file(fd),
            Err(_) => {},
        }
    }

    /// Bookkeeping for a pushed update: on a successful upload the matching
    /// record is refreshed with the change's values; a failure leaves the
    /// state alone.
    pub fn sync_update_file(&mut self, change: &FileChange, uploaded: &Result<bool, SyncError>)
        ensures
            final(self)@.revision == old(self)@.revision,
            match uploaded {
                Ok(_) => final(self)@.files == crate::model::spec_update(
                    old(self)@.files,
                    change@.file,
                ),
                Err(_) => final(self)@ == old(self)@,
            },
    {
        match uploaded {
            Ok(_) => self.local_state.update_file(&change.file),
            Err(_) => {},
        }
    }

    /// Bookkeeping for a pushed delete: on a successful remote delete every
    /// record carrying the change's id is dropped; a failure leaves the
    /// state alone.
    pub fn sync_delete_file(&mut self, change: &FileChange, deleted: &Result<bool, SyncError>)
        ensures
            final(self)@.revision == old(self)@.revision,
            match deleted {
                Ok(_) => final(self)@.files == crate::model::spec_remove(
                    old(self)@.files,
                    change@.file.id,
                ),
                Err(_) => final(self)@ == old(self)@,
            },
    {
        match deleted {
            Ok(_) => self.local_state.remove_file(&change.file),
            Err(_) => {},
        }
    }

    /// Bookkeeping for a server-directed download: once the fetched content
    /// has been written locally, the record is upserted; without a written
    /// file the state is left alone.
    pub fn sync_download_file(&mut self, change: &FileChange, wrote: bool)
        ensures
            final(self)@.revision == old(self)@.revision,
            wrote ==> final(self)@.files == crate::model::spec_upsert(
                old(self)@.files,
                change@.file,
            ),
            !wrote ==> final(self)@ == old(self)@,
    {
        if wrote {
            self.local_state.add_or_update_file(&change.file);
        }
    }

    /// Bookkeeping for a server-directed upload: the same refresh as a
    /// pushed update.
    pub fn sync_upload_file(&mut self, change: &FileChange, uploaded: &Result<bool, SyncError>)
        ensures
            final(self)@.revision == old(self)@.revision,
            match uploaded {
                Ok(_) => final(self)@.files == crate::model::spec_update(
                    old(self)@.files,
                    change@.file,
                ),
                Err(_) => final(self)@ == old(self)@,
            },
    {
        match uploaded {
            Ok(_) => self.local_state.update_file(&change.file),
            Err(_) => {},
        }
    }

    /// Bookkeeping for a server-directed delete: the record is dropped
    /// unconditionally. Removing the file from disk is the surrounding
    /// program's side; a file already absent from disk is only logged there
    /// and never fails the cycle.
    pub fn sync_delete_local_file(&mut self, change: &FileChange)
        ensures
            final(self)@.revision == old(self)@.revision,
            final(self)@.files == crate::model::spec_remove(old(self)@.files, change@.file.id),
    {
        self.local_state.remove_file(&change.file);
    }

    /// Adopt the revision a fully applied patch announced, leaving the
    /// records as they are.
    pub fn adopt_revision(&mut self, revision: u64)
        ensures
            final(self)@.revision == revision,
            final(self)@.files == old(self)@.files,
    {
        self.local_state.revision = revision;
    }

    /// The bounded convergence decision after a pull: an empty second patch
    /// means the server agrees — its revision is adopted and the result is
    /// true (the caller persists); a non-empty one is divergence — nothing
    /// changes, the result is false, and the caller only warns, never
    /// retries.
    pub fn confirm_convergence(&mut self, patch: &ChangePatch) -> (r: bool)
        ensures
            r == (patch@.changes.len() == 0),
            final(self)@.files == old(self)@.files,
            r ==> final(self)@.revision == patch@.revision,
            !r ==> final(self)@.revision == old(self)@.revision,
    {
        if patch.changes.len() == 0 {
            self.local_state.revision = patch.revision;
            true
        } else {
            false
        }
    }
}

/// Push idempotence: when every scanned record has a stored record denoting
/// the same logical file with the same size, and every stored record still
/// has a counterpart on disk, the detector reports no changes at all. This
/// is the state a push cycle whose remote calls all succeeded leaves behind:
/// running it again detects nothing and mutates nothing.
pub proof fn lemma_changes_empty(stored: Seq<FileDefinitionView>, scanned: Seq<FileDefinitionView>)
    requires
        forall|i: int|
            0 <= i < scanned.len() ==> (#[trigger] spec_find_match(stored, scanned[i])) is Some
                && spec_find_match(stored, scanned[i])->Some_0.size == scanned[i].size,
        forall|j: int| 0 <= j < stored.len() ==> spec_seen(scanned, #[trigger] stored[j]),
    ensures
        spec_changes(stored, scanned) == Seq::<FileChangeView>::empty(),
{
    lemma_scan_changes_empty(stored, scanned);
    lemma_delete_changes_empty(stored, scanned);
    assert(spec_changes(stored, scanned) =~= Seq::<FileChangeView>::empty());
}

/// Pairwise distinct `(name, path)` identities: what a snapshot of a real
/// tree always has, since each file lies at one place.
pub open spec fn names_unique(files: Seq<FileDefinitionView>) -> bool {
    forall|a: int, b: int|
        0 <= a < b < files.len() ==> !spec_same_file(#[trigger] files[a], #[trigger] files[b])
}

/// A first push from the empty state, end to end. The detector orders
/// exactly one create per scanned record, in scan order; a healthy remote
/// answers each with an id, so the state the cycle leaves behind holds the
/// scanned records with those ids, in order. Scanning an unchanged tree
/// again then detects nothing — the second run has zero changes and mutates
/// nothing.
pub proof fn lemma_first_push_idempotent(
    scanned: Seq<FileDefinitionView>,
    ids: Seq<Option<Seq<char>>>,
)
    requires
        names_unique(scanned),
        ids.len() == scanned.len(),
    ensures
        spec_changes(Seq::empty(), scanned) == Seq::new(
            scanned.len(),
            |i: int| FileChangeView { file: with_id(scanned[i], None), change: ChangeType::Create },
        ),
        spec_changes(
            Seq::new(scanned.len(), |i: int| with_id(scanned[i], ids[i])),
            scanned,
        ) == Seq::<FileChangeView>::empty(),
{
    lemma_scan_all_creates(scanned);
    assert(spec_delete_changes(Seq::empty(), scanned) == Seq::<FileChangeView>::empty());
    assert(spec_changes(Seq::empty(), scanned) =~= Seq::new(
        scanned.len(),
        |i: int| FileChangeView { file: with_id(scanned[i], None), change: ChangeType::Create },
    ));
    let result = Seq::new(scanned.len(), |i: int| with_id(scanned[i], ids[i]));
    assert forall|i: int|
        0 <= i < scanned.len() implies (#[trigger] spec_find_match(result, scanned[i])) is Some
        && spec_find_match(result, scanned[i])->Some_0.size == scanned[i].size by {
        assert(spec_same_file(result[i], scanned[i]));
        assert forall|k: int| 0 <= k < i implies !spec_same_file(#[trigger] result[k], scanned[i]) by {
            assert(!spec_same_file(scanned[k], scanned[i]));
        }
        lemma_find_match_at(result, scanned[i], i);
    }
    assert forall|j: int| 0 <= j < result.len() implies spec_seen(scanned, #[trigger] result[j]) by {
        assert(spec_same_file(scanned[j], result[j]));
    }
    lemma_changes_empty(result, scanned);
}

/// Against an empty state, every scanned record is a create, in scan order.
proof fn lemma_scan_all_creates(scanned: Seq<FileDefinitionView>)
    ensures
        spec_scan_changes(Seq::empty(), scanned) == Seq::new(
            scanned.len(),
            |i: int| FileChangeView { file: with_id(scanned[i], None), change: ChangeType::Create },
        ),
    decreases scanned.len(),
{
    if scanned.len() > 0 {
        lemma_scan_all_creates(scanned.drop_last());
        assert(forall|i: int|
            0 <= i < scanned.len() - 1 ==> scanned.drop_last()[i] == scanned[i]);
        assert(spec_find_match(Seq::empty(), scanned.last()) is None);
        assert(spec_scan_changes(Seq::empty(), scanned) =~= Seq::new(
            scanned.len(),
            |i: int| FileChangeView { file: with_id(scanned[i], None), change: ChangeType::Create },
        ));
    } else {
        assert(spec_scan_changes(Seq::empty(), scanned) =~= Seq::new(
            scanned.len(),
            |i: int| FileChangeView { file: with_id(scanned[i], None), change: ChangeType::Create },
        ));
    }
}

proof fn lemma_scan_changes_empty(stored: Seq<FileDefinitionView>, scanned: Seq<FileDefinitionView>)
    requires
        forall|i: int|
            0 <= i < scanned.len() ==> (#[trigger] spec_find_match(stored, scanned[i])) is Some
                && spec_find_match(stored, scanned[i])->Some_0.size == scanned[i].size,
    ensures
        spec_scan_changes(stored, scanned) == Seq::<FileChangeView>::empty(),
    decreases scanned.len(),
{
    if scanned.len() > 0 {
        let init = scanned.drop_last();
        assert(forall|i: int| 0 <= i < init.len() ==> init[i] == scanned[i]);
        lemma_scan_changes_empty(stored, init);
        let s = scanned.last();
        assert(s == scanned[scanned.len() - 1]);
        let t = spec_find_match(stored, s)->Some_0;
        lemma_find_match_props(stored, s);
        assert(spec_same_file(t, s));
        assert(!spec_have_changed(s, t));
        assert(spec_scan_changes(stored, scanned) =~= Seq::<FileChangeView>::empty());
    }
}

proof fn lemma_delete_changes_empty(
    stored: Seq<FileDefinitionView>,
    scanned: Seq<FileDefinitionView>,
)
    requires
        forall|j: int| 0 <= j < stored.len() ==> spec_seen(scanned, #[trigger] stored[j]),
    ensures
        spec_delete_changes(stored, scanned) == Seq::<FileChangeView>::empty(),
    decreases stored.len(),
{
    if stored.len() > 0 {
        let init = stored.drop_last();
        assert(forall|j: int| 0 <= j < init.len() ==> init[j] == stored[j]);
        lemma_delete_changes_empty(init, scanned);
        assert(stored.last() == stored[stored.len() - 1]);
        assert(spec_seen(scanned, stored.last()));
        assert(spec_delete_changes(stored, scanned) =~= Seq::<FileChangeView>::empty());
    }
}

} // verus!
