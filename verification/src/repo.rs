//! The repository: the files it is made of as the library sees them, its
//! errors, and the reads and writes that every command is built from.

use vstd::prelude::*;
use vstd::utf8::encode_utf8;

use crate::digest::{hash_bytes, spec_hash_bytes, ObjectHash};
use crate::json::{json_field, json_object, json_str, string_views, write_field, write_object, write_str, byte_views};
use crate::merge::append_str;
use crate::object::{object_json, Object, ObjectView};
use crate::pathmap::{map_of, PathMap};
use crate::text::{strip_prefix, strip_prefix_str, trim, trim_str, valid_object_hash, is_valid_object_hash};

verus! {

/// Why a command failed.
#[derive(Debug)]
pub enum RepoError {
    NotRepository,
    AlreadyExists,
    PathNotFound(String),
    NothingToCommit,
    Io(String),
    Serde(String),
    WalkDir(String),
    SystemTime(String),
    ExpectedCommit,
    ExpectedTree,
    ExpectedBlob,
    UnsafePath(String),
    InvalidObjectHash(String),
    CorruptedObject(ObjectHash),
    NoCommitsYet,
    BranchAlreadyExists(String),
    InvalidBranchName(String),
    DetachedHead,
    InvalidHead,
    BranchNotFound(String),
    NoCommonAncestor,
    UnresolvedConflicts,
    MergeInProgress,
}

/// The value of a [`RepoError`].
pub enum ErrorView {
    NotRepository,
    AlreadyExists,
    PathNotFound(Seq<char>),
    NothingToCommit,
    Io(Seq<char>),
    Serde(Seq<char>),
    WalkDir(Seq<char>),
    SystemTime(Seq<char>),
    ExpectedCommit,
    ExpectedTree,
    ExpectedBlob,
    UnsafePath(Seq<char>),
    InvalidObjectHash(Seq<char>),
    CorruptedObject(Seq<char>),
    NoCommitsYet,
    BranchAlreadyExists(Seq<char>),
    InvalidBranchName(Seq<char>),
    DetachedHead,
    InvalidHead,
    BranchNotFound(Seq<char>),
    NoCommonAncestor,
    UnresolvedConflicts,
    MergeInProgress,
}

impl View for RepoError {
    type V = ErrorView;

    open spec fn view(&self) -> ErrorView {
        match self {
            RepoError::NotRepository => ErrorView::NotRepository,
            RepoError::AlreadyExists => ErrorView::AlreadyExists,
            RepoError::PathNotFound(s) => ErrorView::PathNotFound(s@),
            RepoError::NothingToCommit => ErrorView::NothingToCommit,
            RepoError::Io(s) => ErrorView::Io(s@),
            RepoError::Serde(s) => ErrorView::Serde(s@),
            RepoError::WalkDir(s) => ErrorView::WalkDir(s@),
            RepoError::SystemTime(s) => ErrorView::SystemTime(s@),
            RepoError::ExpectedCommit => ErrorView::ExpectedCommit,
            RepoError::ExpectedTree => ErrorView::ExpectedTree,
            RepoError::ExpectedBlob => ErrorView::ExpectedBlob,
            RepoError::UnsafePath(s) => ErrorView::UnsafePath(s@),
            RepoError::InvalidObjectHash(s) => ErrorView::InvalidObjectHash(s@),
            RepoError::CorruptedObject(s) => ErrorView::CorruptedObject(s@),
            RepoError::NoCommitsYet => ErrorView::NoCommitsYet,
            RepoError::BranchAlreadyExists(s) => ErrorView::BranchAlreadyExists(s@),
            RepoError::InvalidBranchName(s) => ErrorView::InvalidBranchName(s@),
            RepoError::DetachedHead => ErrorView::DetachedHead,
            RepoError::InvalidHead => ErrorView::InvalidHead,
            RepoError::BranchNotFound(s) => ErrorView::BranchNotFound(s@),
            RepoError::NoCommonAncestor => ErrorView::NoCommonAncestor,
            RepoError::UnresolvedConflicts => ErrorView::UnresolvedConflicts,
            RepoError::MergeInProgress => ErrorView::MergeInProgress,
        }
    }
}

impl RepoError {
    /// A copy of the error.
    pub fn duplicate(&self) -> (r: RepoError)
        ensures
            r@ == self@,
    {
        match self {
            RepoError::NotRepository => RepoError::NotRepository,
            RepoError::AlreadyExists => RepoError::AlreadyExists,
            RepoError::PathNotFound(s) => RepoError::PathNotFound(s.clone()),
            RepoError::NothingToCommit => RepoError::NothingToCommit,
            RepoError::Io(s) => RepoError::Io(s.clone()),
            RepoError::Serde(s) => RepoError::Serde(s.clone()),
            RepoError::WalkDir(s) => RepoError::WalkDir(s.clone()),
            RepoError::SystemTime(s) => RepoError::SystemTime(s.clone()),
            RepoError::ExpectedCommit => RepoError::ExpectedCommit,
            RepoError::ExpectedTree => RepoError::ExpectedTree,
            RepoError::ExpectedBlob => RepoError::ExpectedBlob,
            RepoError::UnsafePath(s) => RepoError::UnsafePath(s.clone()),
            RepoError::InvalidObjectHash(s) => RepoError::InvalidObjectHash(s.clone()),
            RepoError::CorruptedObject(s) => RepoError::CorruptedObject(s.clone()),
            RepoError::NoCommitsYet => RepoError::NoCommitsYet,
            RepoError::BranchAlreadyExists(s) => RepoError::BranchAlreadyExists(s.clone()),
            RepoError::InvalidBranchName(s) => RepoError::InvalidBranchName(s.clone()),
            RepoError::DetachedHead => RepoError::DetachedHead,
            RepoError::InvalidHead => RepoError::InvalidHead,
            RepoError::BranchNotFound(s) => RepoError::BranchNotFound(s.clone()),
            RepoError::NoCommonAncestor => RepoError::NoCommonAncestor,
            RepoError::UnresolvedConflicts => RepoError::UnresolvedConflicts,
            RepoError::MergeInProgress => RepoError::MergeInProgress,
        }
    }
}

/// A result taken by its view.
pub open spec fn result_view<T: View>(r: Result<T, RepoError>) -> Result<T::V, ErrorView> {
    match r {
        Ok(x) => Ok(x@),
        Err(e) => Err(e@),
    }
}

/// A result that carries no value, taken by its view.
pub open spec fn unit_view(r: Result<(), RepoError>) -> Result<(), ErrorView> {
    match r {
        Ok(_) => Ok(()),
        Err(e) => Err(e@),
    }
}

/// An object file as found in `objects/`: its bytes, and what parsing them
/// gave.
#[derive(Debug)]
pub struct StoredObject {
    pub bytes: Vec<u8>,
    pub parsed: Result<Object, RepoError>,
}

/// The value of a [`StoredObject`].
pub struct StoredView {
    pub bytes: Seq<u8>,
    pub parsed: Result<ObjectView, ErrorView>,
}

impl View for StoredObject {
    type V = StoredView;

    open spec fn view(&self) -> StoredView {
        StoredView { bytes: self.bytes@, parsed: result_view(self.parsed) }
    }
}

/// One change to the files on disk.
#[derive(Debug)]
pub enum Effect {
    /// Create a directory below the repository directory (`""` is that directory itself).
    CreateDir(String),
    /// Write a file below the repository directory.
    WriteMeta(String, Vec<u8>),
    /// Remove a file below the repository directory; a missing file is no error.
    RemoveMeta(String),
    /// Write a file of the working tree, creating its parent directories.
    WriteFile(String, Vec<u8>),
    /// Remove a file of the working tree; a missing file is no error.
    RemoveFile(String),
}

/// The value of an [`Effect`].
pub enum EffectView {
    CreateDir(Seq<char>),
    WriteMeta(Seq<char>, Seq<u8>),
    RemoveMeta(Seq<char>),
    WriteFile(Seq<char>, Seq<u8>),
    RemoveFile(Seq<char>),
}

impl View for Effect {
    type V = EffectView;

    open spec fn view(&self) -> EffectView {
        match self {
            Effect::CreateDir(p) => EffectView::CreateDir(p@),
            Effect::WriteMeta(p, b) => EffectView::WriteMeta(p@, b@),
            Effect::RemoveMeta(p) => EffectView::RemoveMeta(p@),
            Effect::WriteFile(p, b) => EffectView::WriteFile(p@, b@),
            Effect::RemoveFile(p) => EffectView::RemoveFile(p@),
        }
    }
}

/// What reading a file of the working tree gave.
#[derive(Debug)]
pub struct FileRead {
    pub read: Result<Vec<u8>, RepoError>,
}

impl View for FileRead {
    type V = Result<Seq<u8>, ErrorView>;

    open spec fn view(&self) -> Result<Seq<u8>, ErrorView> {
        match self.read {
            Ok(b) => Ok(b@),
            Err(e) => Err(e@),
        }
    }
}

/// The files of a repository as the library reads them. Each file that
/// could not be read or parsed holds the error that this gave.
#[derive(Debug)]
pub struct Store {
    /// `HEAD`.
    pub head: Result<String, RepoError>,
    /// The files below `refs/`, keyed by their path in the repository directory.
    pub refs: PathMap<String>,
    /// The files of `objects/`, keyed by file name.
    pub objects: PathMap<StoredObject>,
    /// `index.json`: the staged path of each tracked file and its blob.
    pub index: Result<PathMap<ObjectHash>, RepoError>,
    /// `MERGE_HEAD`, if present.
    pub merge_head: Result<Option<String>, RepoError>,
    /// `MERGE_CONFLICTS`, if present.
    pub merge_conflicts: Result<Option<Vec<String>>, RepoError>,
    /// The regular files of the working tree, keyed by relative path.
    pub files: PathMap<Vec<u8>>,
    /// The symbolic links of the working tree, by relative path.
    pub symlinks: Vec<String>,
    /// Staged paths that name no regular file of the working tree's walk
    /// yet exist on disk (a directory, a symbolic link, a path outside the
    /// tree), keyed by the staged path: what reading each gave.
    pub probed: PathMap<FileRead>,
    /// Paths below `refs/` that exist but are not files (directories), by
    /// their path in the repository directory.
    pub other_refs: Vec<String>,
    /// Files below `refs/` that could not be read as text, by their path in
    /// the repository directory.
    pub unreadable_refs: Vec<String>,
    /// The changes made so far, in order, for the caller to carry out.
    pub effects: Vec<Effect>,
}

/// The value of a [`Store`]; the journal of effects is not part of it.
pub struct StoreView {
    pub head: Result<Seq<char>, ErrorView>,
    pub refs: Map<Seq<char>, Seq<char>>,
    pub objects: Map<Seq<char>, StoredView>,
    pub index: Result<Map<Seq<char>, Seq<char>>, ErrorView>,
    pub merge_head: Result<Option<Seq<char>>, ErrorView>,
    pub merge_conflicts: Result<Option<Seq<Seq<char>>>, ErrorView>,
    pub files: Map<Seq<char>, Seq<u8>>,
    pub symlinks: Seq<Seq<char>>,
    pub probed: Map<Seq<char>, Result<Seq<u8>, ErrorView>>,
    pub other_refs: Seq<Seq<char>>,
    pub unreadable_refs: Seq<Seq<char>>,
}

/// An optional string taken by its view.
pub open spec fn opt_string_view(o: Option<String>) -> Option<Seq<char>> {
    match o {
        Some(s) => Some(s@),
        None => None,
    }
}

/// An optional list of strings taken by its view.
pub open spec fn opt_strings_view(o: Option<Vec<String>>) -> Option<Seq<Seq<char>>> {
    match o {
        Some(v) => Some(string_views(v@)),
        None => None,
    }
}

impl View for Store {
    type V = StoreView;

    open spec fn view(&self) -> StoreView {
        StoreView {
            head: result_view(self.head),
            refs: self.refs@,
            objects: self.objects@,
            index: result_view(self.index),
            merge_head: match self.merge_head {
                Ok(o) => Ok(opt_string_view(o)),
                Err(e) => Err(e@),
            },
            merge_conflicts: match self.merge_conflicts {
                Ok(o) => Ok(opt_strings_view(o)),
                Err(e) => Err(e@),
            },
            files: self.files@,
            symlinks: string_views(self.symlinks@),
            probed: self.probed@,
            other_refs: string_views(self.other_refs@),
            unreadable_refs: string_views(self.unreadable_refs@),
        }
    }
}

/// A MiniGit repository: the working tree it manages, the `.minigit`
/// directory inside it, and what those hold.
#[derive(Debug)]
pub struct Repository {
    pub worktree: String,
    pub git_dir: String,
    pub store: Store,
}

/// The path of an object file in the repository directory.
pub open spec fn object_file(h: Seq<char>) -> Seq<char> {
    "objects/"@ + h
}

/// What reading the object named `h` gives: the name must be well formed,
/// the file must exist and its bytes must hash to the name; then the object
/// is what the bytes parse to.
pub open spec fn spec_read_object(objects: Map<Seq<char>, StoredView>, h: Seq<char>) -> Result<ObjectView, ErrorView> {
    if !valid_object_hash(h) {
        Err(ErrorView::InvalidObjectHash(h))
    } else if !objects.contains_key(h) {
        Err(ErrorView::Io(object_file(h)))
    } else if spec_hash_bytes(objects[h].bytes) != h {
        Err(ErrorView::CorruptedObject(h))
    } else {
        objects[h].parsed
    }
}

/// Content addressing: an object that reads successfully is stored under
/// its own name, which is the hash of the stored bytes, and is what those
/// bytes parse to.
pub proof fn law_read_object_is_addressed(objects: Map<Seq<char>, StoredView>, h: Seq<char>)
    requires
        spec_read_object(objects, h) is Ok,
    ensures
        objects.contains_key(h),
        spec_hash_bytes(objects[h].bytes) == h,
        objects[h].parsed == spec_read_object(objects, h),
        valid_object_hash(h),
{
}

/// An object stored under its well-formed name as its encoding, parsed to
/// itself, reads back.
pub proof fn lemma_read_stored(objects: Map<Seq<char>, StoredView>, o: ObjectView)
    requires
        valid_object_hash(crate::object::object_hash(o)),
        objects.contains_key(crate::object::object_hash(o)),
        objects[crate::object::object_hash(o)] == (StoredView { bytes: object_json(o), parsed: Ok(o) }),
    ensures
        spec_read_object(objects, crate::object::object_hash(o)) == Ok::<ObjectView, ErrorView>(o),
{
}

/// A well-formed object name is a nonempty run of hexadecimal digits: it
/// trims to itself, alone or followed by a line feed, and does not start
/// with `ref: `.
pub proof fn lemma_name_line(o: ObjectView)
    requires
        valid_object_hash(crate::object::object_hash(o)),
    ensures
        crate::object::object_hash(o).len() > 0,
        trim(crate::object::object_hash(o)) == crate::object::object_hash(o),
        trim(crate::object::object_hash(o) + seq!['\n']) == crate::object::object_hash(o),
        strip_prefix(crate::object::object_hash(o), "ref: "@) is None,
{
    let h = crate::object::object_hash(o);
    crate::digest::lemma_hex_lower(crate::digest::sha256_digest(object_json(o)));
    assert(h.len() > 0) by {
        if h.len() == 0 {
            assert(encode_utf8(h) =~= Seq::<u8>::empty());
        }
    }
    crate::text::lemma_trim_hex(h);
    reveal_strlit("ref: ");
    assert(crate::digest::is_hex_char(h[0]));
    if 5 <= h.len() {
        assert(h.take(5)[0] != "ref: "@[0]);
    }
}

/// The branch that `HEAD` names, as a path in the repository directory.
pub open spec fn spec_branch_ref(s: StoreView) -> Result<Seq<char>, ErrorView> {
    match s.head {
        Err(e) => Err(e),
        Ok(h) => match strip_prefix(trim(h), "ref: "@) {
            Some(r) => Ok(r),
            None => Err(ErrorView::DetachedHead),
        },
    }
}

/// The commit that `HEAD` stands at, if any: through the branch it names,
/// or directly when it is detached.
pub open spec fn spec_head_commit(s: StoreView) -> Result<Option<Seq<char>>, ErrorView> {
    match s.head {
        Err(e) => Err(e),
        Ok(h) => match strip_prefix(trim(h), "ref: "@) {
            Some(r) => if !s.refs.contains_key(r) {
                Err(ErrorView::Io(r))
            } else if trim(s.refs[r]).len() == 0 {
                Ok(None)
            } else {
                Ok(Some(trim(s.refs[r])))
            },
            None => if trim(h).len() == 0 {
                Err(ErrorView::InvalidHead)
            } else {
                Ok(Some(trim(h)))
            },
        },
    }
}

/// The commit recorded in `MERGE_HEAD`, if a merge is in progress.
pub open spec fn spec_merge_head(s: StoreView) -> Result<Option<Seq<char>>, ErrorView> {
    match s.merge_head {
        Err(e) => Err(e),
        Ok(None) => Ok(None),
        Ok(Some(c)) => if valid_object_hash(trim(c)) {
            Ok(Some(trim(c)))
        } else {
            Err(ErrorView::InvalidObjectHash(trim(c)))
        },
    }
}

/// The paths still in conflict.
pub open spec fn spec_merge_conflicts(s: StoreView) -> Result<Seq<Seq<char>>, ErrorView> {
    match s.merge_conflicts {
        Err(e) => Err(e),
        Ok(None) => Ok(Seq::empty()),
        Ok(Some(v)) => Ok(v),
    }
}

/// `a` followed by `b`.
pub fn concat_str(a: &str, b: &str) -> (r: String)
    ensures
        r@ == a@ + b@,
{
    let mut s = String::from_str(a);
    s.append(b);
    s
}

/// The UTF-8 bytes of `s`.
pub fn str_bytes(s: &str) -> (r: Vec<u8>)
    ensures
        r@ == vstd::utf8::encode_utf8(s@),
{
    let mut out: Vec<u8> = Vec::new();
    append_str(&mut out, s);
    assert(out@ =~= vstd::utf8::encode_utf8(s@));
    out
}

impl Repository {
    /// Checks that `hash` is a well-formed object name.
    pub fn validate_object_hash(hash: &str) -> (r: Result<(), RepoError>)
        ensures
            r is Ok <==> valid_object_hash(hash@),
            r matches Err(e) ==> e@ == ErrorView::InvalidObjectHash(hash@),
    {
        if !is_valid_object_hash(hash) {
            return Err(RepoError::InvalidObjectHash(String::from_str(hash)));
        }
        Ok(())
    }

    /// Reads the object named `hash`.
    pub fn read_object(&self, hash: &str) -> (r: Result<Object, RepoError>)
        ensures
            result_view(r) == spec_read_object(self.store@.objects, hash@),
    {
        if let Err(e) = Self::validate_object_hash(hash) {
            return Err(e);
        }
        let stored = match self.store.objects.get(hash) {
            Some(o) => o,
            None => return Err(RepoError::Io(concat_str("objects/", hash))),
        };
        let actual_hash = hash_bytes(stored.bytes.as_slice());
        if !(actual_hash == String::from_str(hash)) {
            return Err(RepoError::CorruptedObject(String::from_str(hash)));
        }
        match &stored.parsed {
            Err(e) => Err(e.duplicate()),
            Ok(o) => Ok(o.duplicate()),
        }
    }

    /// The branch that `HEAD` names.
    pub fn current_branch_ref(&self) -> (r: Result<String, RepoError>)
        ensures
            result_view(r) == spec_branch_ref(self.store@),
    {
        let head = match &self.store.head {
            Ok(h) => h,
            Err(e) => return Err(e.duplicate()),
        };
        let trimmed = trim_str(head.as_str());
        match strip_prefix_str(trimmed.as_str(), "ref: ") {
            Some(r) => Ok(r),
            None => Err(RepoError::DetachedHead),
        }
    }

    /// The commit that `HEAD` stands at, if any.
    pub fn head_commit(&self) -> (r: Result<Option<ObjectHash>, RepoError>)
        ensures
            match r {
                Ok(o) => spec_head_commit(self.store@) == Ok::<Option<Seq<char>>, ErrorView>(opt_string_view(o)),
                Err(e) => spec_head_commit(self.store@) == Err::<Option<Seq<char>>, ErrorView>(e@),
            },
    {
        let head = match &self.store.head {
            Ok(h) => h,
            Err(e) => return Err(e.duplicate()),
        };
        let trimmed = trim_str(head.as_str());
        match strip_prefix_str(trimmed.as_str(), "ref: ") {
            Some(branch_ref) => {
                let content = match self.store.refs.get(branch_ref.as_str()) {
                    Some(c) => c,
                    None => return Err(RepoError::Io(branch_ref)),
                };
                let commit_hash = trim_str(content.as_str());
                if commit_hash.unicode_len() == 0 {
                    Ok(None)
                } else {
                    Ok(Some(commit_hash))
                }
            },
            None => {
                if trimmed.unicode_len() == 0 {
                    Err(RepoError::InvalidHead)
                } else {
                    Ok(Some(trimmed))
                }
            },
        }
    }
}


/// The bytes of `index.json` for these (path, blob) entries, in path order.
pub open spec fn index_json(entries: Seq<(Seq<char>, Seq<char>)>) -> Seq<u8> {
    json_object(
        seq![json_field("entries"@, json_object(entries.map_values(|e: (Seq<char>, Seq<char>)| json_field(e.0, json_str(e.1))), 2))],
        1,
    )
}

/// The bytes of `MERGE_CONFLICTS` for these paths.
pub open spec fn conflicts_json(paths: Seq<Seq<char>>) -> Seq<u8> {
    crate::json::json_string_list(paths)
}

/// The views of a journal of effects, oldest first.
pub open spec fn effect_views(v: Seq<Effect>) -> Seq<EffectView> {
    v.map_values(|e: Effect| e@)
}

/// Writing the file `path` of the repository directory with the UTF-8 bytes
/// of `content`.
pub open spec fn meta_write(path: Seq<char>, content: Seq<char>) -> EffectView {
    EffectView::WriteMeta(path, encode_utf8(content))
}

/// Writing the file of object `o`: its encoding, under its name.
pub open spec fn object_write(o: ObjectView) -> EffectView {
    EffectView::WriteMeta(object_file(crate::object::object_hash(o)), object_json(o))
}

/// Writing `index.json` for the staged snapshot `m`.
pub open spec fn index_write(m: Map<Seq<char>, Seq<char>>) -> EffectView {
    EffectView::WriteMeta("index.json"@, index_json(crate::pathmap::listing(m)))
}

/// Writing `MERGE_CONFLICTS` for the paths `v`.
pub open spec fn conflicts_write(v: Seq<Seq<char>>) -> EffectView {
    EffectView::WriteMeta("MERGE_CONFLICTS"@, conflicts_json(v))
}

/// Removing `MERGE_HEAD` and `MERGE_CONFLICTS`.
pub open spec fn clear_writes() -> Seq<EffectView> {
    seq![EffectView::RemoveMeta("MERGE_HEAD"@), EffectView::RemoveMeta("MERGE_CONFLICTS"@)]
}

/// Writes the index file for `index`.
pub fn index_bytes(index: &PathMap<ObjectHash>) -> (r: Vec<u8>)
    ensures
        r@ == index_json(index.pairs()),
{
    let ghost entries = index.pairs();
    let mut fields: Vec<Vec<u8>> = Vec::new();
    let n = index.len();
    let mut i: usize = 0;
    while i < n
        invariant
            n == entries.len(),
            entries == index.pairs(),
            i <= n,
            byte_views(fields@) == entries.take(i as int).map_values(|e: (Seq<char>, Seq<char>)| json_field(e.0, json_str(e.1))),
        decreases n - i,
    {
        let (k, v) = index.entry_at(i);
        let ghost before = byte_views(fields@);
        let value = write_str(v.as_str());
        let field = write_field(k.as_str(), value.as_slice());
        fields.push(field);
        assert(byte_views(fields@) =~= before.push(json_field(entries[i as int].0, json_str(entries[i as int].1))));
        i = i + 1;
        assert(byte_views(fields@) =~= entries.take(i as int).map_values(|e: (Seq<char>, Seq<char>)| json_field(e.0, json_str(e.1))));
    }
    assert(entries.take(n as int) =~= entries);
    let inner = write_object(&fields, 2);
    let mut outer: Vec<Vec<u8>> = Vec::new();
    outer.push(write_field("entries", inner.as_slice()));
    assert(byte_views(outer@) =~= seq![json_field("entries"@, json_object(byte_views(fields@), 2))]);
    write_object(&outer, 1)
}

impl Repository {
    /// Records an effect for the caller to carry out.
    pub(crate) fn record(&mut self, effect: Effect)
        ensures
            final(self).store@ == old(self).store@,
            final(self).store.effects@ == old(self).store.effects@.push(effect),
            effect_views(final(self).store.effects@) == effect_views(old(self).store.effects@).push(effect@),
            final(self).worktree == old(self).worktree,
            final(self).git_dir == old(self).git_dir,
    {
        let ghost before = self.store.effects@;
        let ghost e = effect@;
        self.store.effects.push(effect);
        assert(effect_views(self.store.effects@) =~= effect_views(before).push(e));
    }

    /// Writes a file of the working tree.
    pub fn write_file(&mut self, path: &str, bytes: Vec<u8>)
        ensures
            final(self).store@ == (StoreView { files: old(self).store@.files.insert(path@, bytes@), ..old(self).store@ }),
            effect_views(final(self).store.effects@) == effect_views(old(self).store.effects@).push(EffectView::WriteFile(path@, bytes@)),
            final(self).worktree == old(self).worktree,
            final(self).git_dir == old(self).git_dir,
    {
        let copy = crate::object::clone_bytes(&bytes);
        self.store.files.insert(String::from_str(path), copy);
        self.record(Effect::WriteFile(String::from_str(path), bytes));
    }
}

/// Whether the store holds an object with this view under this name (as a
/// written object: its encoding, parsed to itself).
pub open spec fn stored_as(s: StoreView, h: Seq<char>, o: ObjectView) -> bool {
    s.objects.contains_key(h) && s.objects[h] == StoredView { bytes: object_json(o), parsed: Ok(o) }
}

impl Repository {
    /// Removes a file of the working tree.
    pub fn remove_file(&mut self, path: &str)
        ensures
            final(self).store@ == (StoreView { files: old(self).store@.files.remove(path@), ..old(self).store@ }),
            effect_views(final(self).store.effects@) == effect_views(old(self).store.effects@).push(EffectView::RemoveFile(path@)),
            final(self).worktree == old(self).worktree,
            final(self).git_dir == old(self).git_dir,
    {
        self.store.files.remove(path);
        self.record(Effect::RemoveFile(String::from_str(path)));
    }

    /// Writes a file below `refs/`.
    pub(crate) fn put_ref(&mut self, path: String, content: String)
        ensures
            final(self).store@ == (StoreView { refs: old(self).store@.refs.insert(path@, content@), ..old(self).store@ }),
            effect_views(final(self).store.effects@) == effect_views(old(self).store.effects@).push(meta_write(path@, content@)),
            final(self).worktree == old(self).worktree,
            final(self).git_dir == old(self).git_dir,
    {
        let bytes = str_bytes(content.as_str());
        let p = path.clone();
        self.store.refs.insert(path, content);
        self.record(Effect::WriteMeta(p, bytes));
    }

    /// Writes `HEAD`.
    pub(crate) fn put_head(&mut self, content: String)
        ensures
            final(self).store@ == (StoreView { head: Ok(content@), ..old(self).store@ }),
            effect_views(final(self).store.effects@) == effect_views(old(self).store.effects@).push(meta_write("HEAD"@, content@)),
            final(self).worktree == old(self).worktree,
            final(self).git_dir == old(self).git_dir,
    {
        let bytes = str_bytes(content.as_str());
        self.store.head = Ok(content);
        self.record(Effect::WriteMeta(String::from_str("HEAD"), bytes));
    }

    /// Writes `index.json`.
    pub(crate) fn put_index(&mut self, index: PathMap<ObjectHash>)
        ensures
            final(self).store@ == (StoreView { index: Ok(index@), ..old(self).store@ }),
            effect_views(final(self).store.effects@) == effect_views(old(self).store.effects@).push(index_write(index@)),
            final(self).worktree == old(self).worktree,
            final(self).git_dir == old(self).git_dir,
    {
        proof {
            use_type_invariant(&index);
            index.lemma_wf();
        }
        let bytes = index_bytes(&index);
        self.store.index = Ok(index);
        self.record(Effect::WriteMeta(String::from_str("index.json"), bytes));
    }

    /// Writes `MERGE_HEAD`.
    pub(crate) fn put_merge_head(&mut self, content: String)
        ensures
            final(self).store@ == (StoreView { merge_head: Ok(Some(content@)), ..old(self).store@ }),
            effect_views(final(self).store.effects@) == effect_views(old(self).store.effects@).push(meta_write("MERGE_HEAD"@, content@)),
            final(self).worktree == old(self).worktree,
            final(self).git_dir == old(self).git_dir,
    {
        let bytes = str_bytes(content.as_str());
        self.store.merge_head = Ok(Some(content));
        self.record(Effect::WriteMeta(String::from_str("MERGE_HEAD"), bytes));
    }

    /// Writes `MERGE_CONFLICTS`.
    pub(crate) fn put_conflicts(&mut self, paths: Vec<String>)
        ensures
            final(self).store@ == (StoreView { merge_conflicts: Ok(Some(string_views(paths@))), ..old(self).store@ }),
            effect_views(final(self).store.effects@) == effect_views(old(self).store.effects@).push(conflicts_write(string_views(paths@))),
            final(self).worktree == old(self).worktree,
            final(self).git_dir == old(self).git_dir,
    {
        let bytes = crate::json::pretty_string_list(&paths);
        self.store.merge_conflicts = Ok(Some(paths));
        self.record(Effect::WriteMeta(String::from_str("MERGE_CONFLICTS"), bytes));
    }

    /// Removes `MERGE_HEAD` and `MERGE_CONFLICTS`.
    pub(crate) fn clear_merge_state(&mut self)
        ensures
            final(self).store@ == (StoreView { merge_head: Ok(None), merge_conflicts: Ok(None), ..old(self).store@ }),
            effect_views(final(self).store.effects@) == effect_views(old(self).store.effects@) + clear_writes(),
            final(self).worktree == old(self).worktree,
            final(self).git_dir == old(self).git_dir,
    {
        self.store.merge_head = Ok(None);
        self.store.merge_conflicts = Ok(None);
        let ghost before = effect_views(self.store.effects@);
        self.record(Effect::RemoveMeta(String::from_str("MERGE_HEAD")));
        self.record(Effect::RemoveMeta(String::from_str("MERGE_CONFLICTS")));
        assert(effect_views(self.store.effects@) =~= before + clear_writes());
    }

    /// Stores `object` under its name and gives back the name.
    pub fn write_object(&mut self, object: &Object) -> (hash: ObjectHash)
        ensures
            hash@ == crate::object::object_hash(object@),
            final(self).store@ == (StoreView {
                objects: old(self).store@.objects.insert(hash@, StoredView { bytes: object_json(object@), parsed: Ok(object@) }),
                ..old(self).store@
            }),
            stored_as(final(self).store@, hash@, object@),
            valid_object_hash(hash@),
            spec_read_object(final(self).store@.objects, hash@) == Ok::<ObjectView, ErrorView>(object@),
            effect_views(final(self).store.effects@) == effect_views(old(self).store.effects@).push(object_write(object@)),
            final(self).worktree == old(self).worktree,
            final(self).git_dir == old(self).git_dir,
    {
        let hash = object.hash();
        let bytes = object.to_bytes();
        let copy = crate::object::clone_bytes(&bytes);
        self.store.objects.insert(hash.clone(), StoredObject { bytes: copy, parsed: Ok(object.duplicate()) });
        self.record(Effect::WriteMeta(concat_str("objects/", hash.as_str()), bytes));
        hash
    }

    /// Reads the index.
    pub fn read_index(&self) -> (r: Result<PathMap<ObjectHash>, RepoError>)
        ensures
            result_view(r) == self.store@.index,
    {
        match &self.store.index {
            Ok(m) => Ok(m.duplicate()),
            Err(e) => Err(e.duplicate()),
        }
    }

    /// The commit recorded in `MERGE_HEAD`, if a merge is in progress.
    pub fn read_merge_head(&self) -> (r: Result<Option<ObjectHash>, RepoError>)
        ensures
            match r {
                Ok(o) => spec_merge_head(self.store@) == Ok::<Option<Seq<char>>, ErrorView>(opt_string_view(o)),
                Err(e) => spec_merge_head(self.store@) == Err::<Option<Seq<char>>, ErrorView>(e@),
            },
    {
        match &self.store.merge_head {
            Err(e) => Err(e.duplicate()),
            Ok(None) => Ok(None),
            Ok(Some(content)) => {
                let hash = trim_str(content.as_str());
                if let Err(e) = Self::validate_object_hash(hash.as_str()) {
                    return Err(e);
                }
                Ok(Some(hash))
            },
        }
    }

    /// Fails when a merge is in progress.
    pub fn ensure_no_merge_in_progress(&self) -> (r: Result<(), RepoError>)
        ensures
            match spec_merge_head(self.store@) {
                Err(e) => r matches Err(x) && x@ == e,
                Ok(Some(_)) => r matches Err(x) && x@ == ErrorView::MergeInProgress,
                Ok(None) => r is Ok,
            },
    {
        match self.read_merge_head() {
            Err(e) => Err(e),
            Ok(Some(_)) => Err(RepoError::MergeInProgress),
            Ok(None) => Ok(()),
        }
    }

    /// The paths still in conflict.
    pub fn read_merge_conflicts(&self) -> (r: Result<Vec<String>, RepoError>)
        ensures
            match r {
                Ok(v) => spec_merge_conflicts(self.store@) == Ok::<Seq<Seq<char>>, ErrorView>(string_views(v@)),
                Err(e) => spec_merge_conflicts(self.store@) == Err::<Seq<Seq<char>>, ErrorView>(e@),
            },
    {
        match &self.store.merge_conflicts {
            Err(e) => Err(e.duplicate()),
            Ok(None) => {
                let v: Vec<String> = Vec::new();
                assert(string_views(v@) =~= Seq::<Seq<char>>::empty());
                Ok(v)
            },
            Ok(Some(v)) => Ok(crate::object::clone_strings(v)),
        }
    }

    /// Points the branch that `HEAD` names at `commit_hash`.
    pub fn update_current_branch(&mut self, commit_hash: &str) -> (r: Result<(), RepoError>)
        ensures
            match spec_branch_ref(old(self).store@) {
                Err(e) => r matches Err(x) && x@ == e && final(self).store@ == old(self).store@
                    && effect_views(final(self).store.effects@) == effect_views(old(self).store.effects@),
                Ok(b) => r is Ok && final(self).store@ == (StoreView {
                    refs: old(self).store@.refs.insert(b, commit_hash@ + "\n"@),
                    ..old(self).store@
                }) && effect_views(final(self).store.effects@) == effect_views(old(self).store.effects@).push(
                    meta_write(b, commit_hash@ + "\n"@),
                ),
            },
            final(self).worktree == old(self).worktree,
            final(self).git_dir == old(self).git_dir,
    {
        let branch_ref = match self.current_branch_ref() {
            Ok(b) => b,
            Err(e) => return Err(e),
        };
        self.put_ref(branch_ref, concat_str(commit_hash, "\n"));
        Ok(())
    }
}
} // verus!
