//! Data model of the synchronization client: file records, changes, patches
//! and the durable local state.

use vstd::prelude::*;

verus! {

/// The error taxonomy of the whole client. Every fallible operation of the
/// library reports one of these instead of aborting.
#[derive(Clone, Copy, PartialEq, Eq, Structural, Debug)]
pub enum SyncError {
    /// A remote call answered with an unexpected status, or the transport
    /// itself failed.
    TransportError,
    /// Persisted state or a server reply could not be decoded.
    SerializationError,
    /// A read, write or metadata operation on the local tree failed.
    FilesystemError,
    /// A required field (typically an id) was absent where an operation
    /// assumes it.
    PreconditionError,
}

/// The view of an optional owned string: absent, or the character sequence.
pub open spec fn opt_view(o: Option<String>) -> Option<Seq<char>> {
    match o {
        Some(s) => Some(s@),
        None => None,
    }
}

/// One tracked file: its leaf name, its relative directory (empty for the
/// sync root), the identity the server assigned to it (absent until a remote
/// create succeeds), and the scanned size, content digest and modification
/// time (each absent until known).
pub struct FileDefinition {
    pub name: String,
    pub path: String,
    pub id: Option<String>,
    pub size: Option<u64>,
    pub checksum: Option<String>,
    pub last_update: Option<u64>,
}

/// Mathematical image of a [`FileDefinition`]: strings as character
/// sequences, everything else as plain values.
pub struct FileDefinitionView {
    pub name: Seq<char>,
    pub path: Seq<char>,
    pub id: Option<Seq<char>>,
    pub size: Option<u64>,
    pub checksum: Option<Seq<char>>,
    pub last_update: Option<u64>,
}

impl View for FileDefinition {
    type V = FileDefinitionView;

    open spec fn view(&self) -> FileDefinitionView {
        FileDefinitionView {
            name: self.name@,
            path: self.path@,
            id: opt_view(self.id),
            size: self.size,
            checksum: opt_view(self.checksum),
            last_update: self.last_update,
        }
    }
}

impl Clone for FileDefinition {
    fn clone(&self) -> (r: Self)
        ensures
            r@ == self@,
    {
        FileDefinition {
            name: self.name.clone(),
            path: self.path.clone(),
            id: clone_opt_string(&self.id),
            size: self.size,
            checksum: clone_opt_string(&self.checksum),
            last_update: self.last_update,
        }
    }
}

impl FileDefinitionView {
    /// A record is valid once the server knows it: it has an id, a non-empty
    /// leaf name, and a directory path (the empty path denotes the sync
    /// root).
    pub open spec fn valid(self) -> bool {
        &&& self.id is Some
        &&& self.name.len() > 0
    }
}

impl FileDefinition {
    /// A record fresh from a first sighting: name and place are known,
    /// everything else is not.
    pub fn new(name: String, path: String) -> (r: Self)
        ensures
            r@ == (FileDefinitionView {
                name: name@,
                path: path@,
                id: None,
                size: None,
                checksum: None,
                last_update: None,
            }),
    {
        Self { name, path, id: None, size: None, checksum: None, last_update: None }
    }

    /// A record built from a filesystem scan: contents are measured and
    /// digested, but the server has not yet assigned an id.
    pub fn new_full_no_id(
        name: String,
        path: String,
        size: u64,
        checksum: String,
        last_update: u64,
    ) -> (r: Self)
        ensures
            r@ == (FileDefinitionView {
                name: name@,
                path: path@,
                id: None,
                size: Some(size),
                checksum: Some(checksum@),
                last_update: Some(last_update),
            }),
    {
        Self {
            name,
            path,
            id: None,
            size: Some(size),
            checksum: Some(checksum),
            last_update: Some(last_update),
        }
    }

    /// Overwrite every descriptive field with `other`'s, keeping the id.
    pub fn set_to(&mut self, other: &FileDefinition)
        ensures
            final(self)@ == (FileDefinitionView { id: old(self)@.id, ..other@ }),
    {
        self.name = clone_string(&other.name);
        self.path = clone_string(&other.path);
        self.size = other.size;
        self.checksum = clone_opt_string(&other.checksum);
        self.last_update = other.last_update;
    }

    /// Whether the record is valid in the sense of [`FileDefinitionView::valid`].
    pub fn is_valid(&self) -> (r: bool)
        ensures
            r == self@.valid(),
    {
        self.id.is_some() && self.name.as_str().unicode_len() > 0
    }

    /// The id a remote operation requires; a record without one is a
    /// precondition error, surfaced to the caller instead of aborting.
    pub fn require_id(&self) -> (r: Result<String, SyncError>)
        ensures
            match r {
                Ok(id) => self@.id == Some(id@),
                Err(e) => self@.id is None && e == SyncError::PreconditionError,
            },
    {
        match &self.id {
            Some(id) => Ok(id.clone()),
            None => Err(SyncError::PreconditionError),
        }
    }
}

/// Clone helper with the view stated.
pub fn clone_string(s: &String) -> (r: String)
    ensures
        r@ == s@,
{
    s.clone()
}

/// Clone helper for an optional string, with the view stated.
pub fn clone_opt_string(s: &Option<String>) -> (r: Option<String>)
    ensures
        opt_view(r) == opt_view(*s),
{
    match s {
        Some(v) => Some(v.clone()),
        None => None,
    }
}

/// Equality of two optional strings, by contents.
pub fn opt_str_eq(a: &Option<String>, b: &Option<String>) -> (r: bool)
    ensures
        r == (opt_view(*a) == opt_view(*b)),
{
    match (a, b) {
        (None, None) => true,
        (Some(x), Some(y)) => x.eq(y),
        _ => false,
    }
}

/// The kind of a change. `Create`, `Update` and `Delete` are produced by the
/// local change detector (and may also appear in a server patch);
/// `DoDownload` and `DoUpload` only ever originate from the server.
#[derive(Clone, Copy, PartialEq, Eq, Structural, Debug)]
pub enum ChangeType {
    Create,
    Update,
    Delete,
    DoDownload,
    DoUpload,
}

/// One change to perform: a file record paired with the kind of change.
pub struct FileChange {
    pub file: FileDefinition,
    pub change: ChangeType,
}

/// Mathematical image of a [`FileChange`].
pub struct FileChangeView {
    pub file: FileDefinitionView,
    pub change: ChangeType,
}

impl View for FileChange {
    type V = FileChangeView;

    open spec fn view(&self) -> FileChangeView {
        FileChangeView { file: self.file@, change: self.change }
    }
}

impl FileChange {
    pub fn new(file: FileDefinition, change: ChangeType) -> (r: Self)
        ensures
            r@ == (FileChangeView { file: file@, change }),
    {
        Self { file, change }
    }
}

impl Clone for FileChange {
    fn clone(&self) -> (r: Self)
        ensures
            r@ == self@,
    {
        FileChange { file: self.file.clone(), change: self.change }
    }
}

/// A server-computed patch: the revision reached once every change in it is
/// applied, and the ordered changes themselves.
pub struct ChangePatch {
    pub revision: u64,
    pub changes: Vec<FileChange>,
}

/// Mathematical image of a [`ChangePatch`].
pub struct ChangePatchView {
    pub revision: u64,
    pub changes: Seq<FileChangeView>,
}

impl View for ChangePatch {
    type V = ChangePatchView;

    open spec fn view(&self) -> ChangePatchView {
        ChangePatchView { revision: self.revision, changes: changes_view(self.changes@) }
    }
}

/// A file record together with its raw content bytes.
pub struct FileData {
    pub definition: FileDefinition,
    pub content: Vec<u8>,
}

/// The durable record of the last synchronized truth: the server's revision
/// counter and the tracked file records, unique by id.
pub struct LocalState {
    pub revision: u64,
    pub files: Vec<FileDefinition>,
}

/// Mathematical image of a [`LocalState`].
pub struct LocalStateView {
    pub revision: u64,
    pub files: Seq<FileDefinitionView>,
}

impl View for LocalState {
    type V = LocalStateView;

    open spec fn view(&self) -> LocalStateView {
        LocalStateView { revision: self.revision, files: defs_view(self.files@) }
    }
}

/// The views of a sequence of file records.
pub open spec fn defs_view(s: Seq<FileDefinition>) -> Seq<FileDefinitionView> {
    s.map_values(|f: FileDefinition| f@)
}

/// The views of a sequence of changes.
pub open spec fn changes_view(s: Seq<FileChange>) -> Seq<FileChangeView> {
    s.map_values(|c: FileChange| c@)
}

/// Whether some record in `files` carries exactly this id.
pub open spec fn contains_id(files: Seq<FileDefinitionView>, id: Option<Seq<char>>) -> bool {
    exists|i: int| 0 <= i < files.len() && files[i].id == id
}

/// The index of the first record carrying `id`, or -1 when none does.
pub open spec fn first_id_index(files: Seq<FileDefinitionView>, id: Option<Seq<char>>) -> int
    decreases files.len(),
{
    if files.len() == 0 {
        -1
    } else if files[0].id == id {
        0
    } else {
        let rest = first_id_index(files.drop_first(), id);
        if rest == -1 {
            -1
        } else {
            rest + 1
        }
    }
}

/// `first_id_index` finds the first record with the id, and only that.
pub proof fn lemma_first_id_index(files: Seq<FileDefinitionView>, id: Option<Seq<char>>)
    ensures
        contains_id(files, id) <==> 0 <= first_id_index(files, id) < files.len(),
        first_id_index(files, id) >= 0 ==> files[first_id_index(files, id)].id == id,
        forall|k: int|
            0 <= k < first_id_index(files, id) ==> (#[trigger] files[k]).id != id,
        !contains_id(files, id) ==> first_id_index(files, id) == -1,
    decreases files.len(),
{
    if files.len() == 0 {
    } else if files[0].id == id {
    } else {
        lemma_first_id_index(files.drop_first(), id);
        let rest = files.drop_first();
        assert(forall|i: int| 0 <= i < rest.len() ==> rest[i] == files[i + 1]);
        if contains_id(files, id) {
            let w = choose|i: int| 0 <= i < files.len() && files[i].id == id;
            assert(rest[w - 1].id == id);
            assert(contains_id(rest, id));
        }
        if contains_id(rest, id) {
            let w = choose|i: int| 0 <= i < rest.len() && rest[i].id == id;
            assert(files[w + 1].id == id);
            assert(contains_id(files, id));
        }
        assert forall|k: int| 0 <= k < first_id_index(files, id) implies (#[trigger] files[k]).id
            != id by {
            if k > 0 {
                assert(files[k] == rest[k - 1]);
                assert(0 <= k - 1 < first_id_index(rest, id));
            }
        }
    }
}

/// The records left after deleting every record carrying `id`, in order.
pub open spec fn spec_remove(
    files: Seq<FileDefinitionView>,
    id: Option<Seq<char>>,
) -> Seq<FileDefinitionView>
    decreases files.len(),
{
    if files.len() == 0 {
        Seq::empty()
    } else {
        let init = spec_remove(files.drop_last(), id);
        if files.last().id == id {
            init
        } else {
            init.push(files.last())
        }
    }
}

/// The records with the first one carrying `fd.id` replaced by `fd` (the id
/// itself is unchanged, since it is equal); without such a record, the
/// records unchanged.
pub open spec fn spec_update(
    files: Seq<FileDefinitionView>,
    fd: FileDefinitionView,
) -> Seq<FileDefinitionView> {
    if contains_id(files, fd.id) {
        files.update(first_id_index(files, fd.id), fd)
    } else {
        files
    }
}

/// Update when the id is known, append when it is not.
pub open spec fn spec_upsert(
    files: Seq<FileDefinitionView>,
    fd: FileDefinitionView,
) -> Seq<FileDefinitionView> {
    if contains_id(files, fd.id) {
        spec_update(files, fd)
    } else {
        files.push(fd)
    }
}

impl LocalState {
    /// Drop every record whose id equals `fd`'s; the rest keep their order.
    pub fn remove_file(&mut self, fd: &FileDefinition)
        ensures
            final(self)@.revision == old(self)@.revision,
            final(self)@.files == spec_remove(old(self)@.files, fd@.id),
    {
        let mut kept: Vec<FileDefinition> = Vec::new();
        let n = self.files.len();
        let mut i: usize = 0;
        while i < n
            invariant
                n == self.files.len(),
                i <= n,
                *self == *old(self),
                defs_view(kept@) == spec_remove(defs_view(self.files@).subrange(0, i as int), fd@.id),
            decreases n - i,
        {
            let ghost prefix = defs_view(self.files@).subrange(0, i as int);
            let ghost prefix1 = defs_view(self.files@).subrange(0, i + 1 as int);
            assert(prefix1.drop_last() =~= prefix);
            assert(prefix1.last() == self.files@[i as int]@);
            if !opt_str_eq(&self.files[i].id, &fd.id) {
                kept.push(self.files[i].clone());
            }
            assert(defs_view(kept@) =~= spec_remove(prefix1, fd@.id));
            i = i + 1;
        }
        assert(defs_view(self.files@).subrange(0, n as int) =~= defs_view(self.files@));
        self.files = kept;
    }

    /// Append the record, whatever it holds.
    pub fn add_file(&mut self, fd: &FileDefinition)
        ensures
            final(self)@.revision == old(self)@.revision,
            final(self)@.files == old(self)@.files.push(fd@),
    {
        self.files.push(fd.clone());
        assert(defs_view(self.files@) =~= defs_view(old(self).files@).push(fd@));
    }

    /// Overwrite the descriptive fields of the first record whose id equals
    /// `fd`'s; without such a record, do nothing.
    pub fn update_file(&mut self, fd: &FileDefinition)
        ensures
            final(self)@.revision == old(self)@.revision,
            final(self)@.files == spec_update(old(self)@.files, fd@),
    {
        proof {
            lemma_first_id_index(old(self)@.files, fd@.id);
        }
        match self.position_of_id(&fd.id) {
            Some(j) => {
                let mut rec = self.files.remove(j);
                rec.set_to(fd);
                proof {
                    assert(rec@ == fd@) by {
                        assert(old(self)@.files[j as int].id == fd@.id);
                    }
                }
                self.files.insert(j, rec);
                assert(defs_view(self.files@) =~= defs_view(old(self).files@).update(
                    j as int,
                    fd@,
                ));
            },
            None => {
            },
        }
    }

    /// Update when the id is already tracked, append when it is not.
    pub fn add_or_update_file(&mut self, fd: &FileDefinition)
        ensures
            final(self)@.revision == old(self)@.revision,
            final(self)@.files == spec_upsert(old(self)@.files, fd@),
    {
        proof {
            lemma_first_id_index(old(self)@.files, fd@.id);
        }
        match self.position_of_id(&fd.id) {
            Some(_) => self.update_file(fd),
            None => self.add_file(fd),
        }
    }

    /// The index of the first record carrying `id`, if any.
    fn position_of_id(&self, id: &Option<String>) -> (r: Option<usize>)
        ensures
            match r {
                Some(j) => j == first_id_index(self@.files, opt_view(*id)) && j < self.files.len(),
                None => !contains_id(self@.files, opt_view(*id)),
            },
    {
        proof {
            lemma_first_id_index(self@.files, opt_view(*id));
        }
        let n = self.files.len();
        let mut i: usize = 0;
        while i < n
            invariant
                n == self.files.len(),
                i <= n,
                forall|k: int| 0 <= k < i ==> (#[trigger] self@.files[k]).id != opt_view(*id),
            decreases n - i,
        {
            if opt_str_eq(&self.files[i].id, id) {
                proof {
                    assert(self@.files[i as int].id == opt_view(*id));
                    assert(contains_id(self@.files, opt_view(*id)));
                    lemma_first_id_index(self@.files, opt_view(*id));
                    let j = first_id_index(self@.files, opt_view(*id));
                    assert(j <= i) by {
                        if j > i {
                            assert(self@.files[i as int].id != opt_view(*id));
                        }
                    }
                    assert(j == i) by {
                        if j < i {
                            assert(self@.files[j].id != opt_view(*id));
                        }
                    }
                }
                return Some(i);
            }
            i = i + 1;
        }
        None
    }
}

/// Upsert law: an unknown id appends the record and keeps every other one;
/// a known id (in a state whose ids are pairwise distinct) overwrites the one
/// record carrying it in place, with no change of length and no duplication.
pub proof fn lemma_upsert(files: Seq<FileDefinitionView>, fd: FileDefinitionView)
    requires
        ids_unique(files),
    ensures
        !contains_id(files, fd.id) ==> spec_upsert(files, fd) == files.push(fd),
        contains_id(files, fd.id) ==> {
            let j = first_id_index(files, fd.id);
            &&& spec_upsert(files, fd).len() == files.len()
            &&& spec_upsert(files, fd)[j] == fd
            &&& forall|k: int|
                0 <= k < files.len() && k != j ==> spec_upsert(files, fd)[k] == files[k]
        },
        ids_unique(spec_upsert(files, fd)),
{
    lemma_first_id_index(files, fd.id);
    if contains_id(files, fd.id) {
        let j = first_id_index(files, fd.id);
        let out = spec_upsert(files, fd);
        assert forall|a: int, b: int|
            0 <= a < b < out.len() implies (#[trigger] out[a]).id != (#[trigger] out[b]).id by {
            assert(files[a].id != files[b].id);
            assert(files[j].id == fd.id);
        }
    } else {
        let out = files.push(fd);
        assert forall|a: int, b: int|
            0 <= a < b < out.len() implies (#[trigger] out[a]).id != (#[trigger] out[b]).id by {
            if b < files.len() {
                assert(files[a].id != files[b].id);
            } else {
                assert(out[b] == fd);
                assert(files[a].id != fd.id);
            }
        }
    }
}

/// Appending a change and taking views commute.
pub proof fn lemma_changes_view_push(s: Seq<FileChange>, c: FileChange)
    ensures
        changes_view(s.push(c)) == changes_view(s).push(c@),
{
    assert(changes_view(s.push(c)) =~= changes_view(s).push(c@));
}

/// Pairwise distinct ids.
pub open spec fn ids_unique(files: Seq<FileDefinitionView>) -> bool {
    forall|a: int, b: int|
        0 <= a < b < files.len() ==> (#[trigger] files[a]).id != (#[trigger] files[b]).id
}

} // verus!
