//! The object model: blobs, trees and commits, their on-disk encoding and
//! their names.

use vstd::prelude::*;

use crate::digest::{hash_bytes, spec_hash_bytes, ObjectHash};
use crate::json::{byte_numbers, byte_views, decimal, json_array, json_field, json_object, json_str, string_views, write_array, write_byte_array, write_field, write_object, write_str, write_string_array, write_u64};

verus! {

/// The contents of one file.
#[derive(Debug, Clone, PartialEq, Eq)]
pub struct Blob {
    pub bytes: Vec<u8>,
}

/// One file of a snapshot: its path and the name of its blob.
#[derive(Debug, Clone, PartialEq, Eq)]
pub struct TreeEntry {
    pub path: String,
    pub blob: ObjectHash,
}

/// A snapshot of the tracked files, in path order.
#[derive(Debug, Clone, PartialEq, Eq)]
pub struct Tree {
    pub entries: Vec<TreeEntry>,
}

/// A commit: a snapshot, the commits it follows, a message and a time.
#[derive(Debug, Clone, PartialEq, Eq)]
pub struct Commit {
    pub tree: ObjectHash,
    pub parents: Vec<ObjectHash>,
    pub message: String,
    pub timestamp_secs: u64,
}

/// Anything the object store holds.
#[derive(Debug, Clone, PartialEq, Eq)]
pub enum Object {
    Blob(Blob),
    Tree(Tree),
    Commit(Commit),
}

/// The value of a [`Commit`].
pub struct CommitView {
    pub tree: Seq<char>,
    pub parents: Seq<Seq<char>>,
    pub message: Seq<char>,
    pub timestamp_secs: u64,
}

/// The value of an [`Object`]; a tree is its (path, blob) pairs.
pub enum ObjectView {
    Blob(Seq<u8>),
    Tree(Seq<(Seq<char>, Seq<char>)>),
    Commit(CommitView),
}

impl View for TreeEntry {
    type V = (Seq<char>, Seq<char>);

    open spec fn view(&self) -> (Seq<char>, Seq<char>) {
        (self.path@, self.blob@)
    }
}

impl View for Tree {
    type V = Seq<(Seq<char>, Seq<char>)>;

    open spec fn view(&self) -> Seq<(Seq<char>, Seq<char>)> {
        self.entries@.map_values(|e: TreeEntry| e@)
    }
}

impl View for Commit {
    type V = CommitView;

    open spec fn view(&self) -> CommitView {
        CommitView {
            tree: self.tree@,
            parents: string_views(self.parents@),
            message: self.message@,
            timestamp_secs: self.timestamp_secs,
        }
    }
}

impl View for Object {
    type V = ObjectView;

    open spec fn view(&self) -> ObjectView {
        match self {
            Object::Blob(b) => ObjectView::Blob(b.bytes@),
            Object::Tree(t) => ObjectView::Tree(t@),
            Object::Commit(c) => ObjectView::Commit(c@),
        }
    }
}

/// An object's encoding: `kind` names the variant and `data` holds its fields.
pub open spec fn tagged(kind: Seq<char>, data: Seq<Seq<u8>>) -> Seq<u8> {
    json_object(seq![json_field("kind"@, json_str(kind)), json_field("data"@, json_object(data, 2))], 1)
}

/// The encoding of one tree entry.
pub open spec fn entry_json(e: (Seq<char>, Seq<char>)) -> Seq<u8> {
    json_object(seq![json_field("path"@, json_str(e.0)), json_field("blob"@, json_str(e.1))], 4)
}

/// The bytes stored for an object: pretty-printed JSON.
pub open spec fn object_json(o: ObjectView) -> Seq<u8> {
    match o {
        ObjectView::Blob(bytes) => tagged("Blob"@, seq![json_field("bytes"@, json_array(byte_numbers(bytes), 3))]),
        ObjectView::Tree(entries) => tagged(
            "Tree"@,
            seq![json_field("entries"@, json_array(entries.map_values(|e: (Seq<char>, Seq<char>)| entry_json(e)), 3))],
        ),
        ObjectView::Commit(c) => tagged(
            "Commit"@,
            seq![
                json_field("tree"@, json_str(c.tree)),
                json_field("parents"@, json_array(c.parents.map_values(|p: Seq<char>| json_str(p)), 3)),
                json_field("message"@, json_str(c.message)),
                json_field("timestamp_secs"@, decimal(c.timestamp_secs as nat)),
            ],
        ),
    }
}

/// The name of an object: the hash of its encoding.
pub open spec fn object_hash(o: ObjectView) -> Seq<char> {
    spec_hash_bytes(object_json(o))
}

/// Writes the encoding of an object of kind `kind` with fields `data`.
fn write_tagged(kind: &str, data: &Vec<Vec<u8>>) -> (r: Vec<u8>)
    ensures
        r@ == tagged(kind@, byte_views(data@)),
{
    let mut fields: Vec<Vec<u8>> = Vec::new();
    let k = write_str(kind);
    fields.push(write_field("kind", k.as_slice()));
    let d = write_object(data, 2);
    fields.push(write_field("data", d.as_slice()));
    assert(byte_views(fields@) =~= seq![json_field("kind"@, json_str(kind@)), json_field("data"@, json_object(byte_views(data@), 2))]);
    write_object(&fields, 1)
}

/// Writes the encoding of a tree entry.
fn write_entry(e: &TreeEntry) -> (r: Vec<u8>)
    ensures
        r@ == entry_json(e@),
{
    let mut fields: Vec<Vec<u8>> = Vec::new();
    let p = write_str(e.path.as_str());
    fields.push(write_field("path", p.as_slice()));
    let b = write_str(e.blob.as_str());
    fields.push(write_field("blob", b.as_slice()));
    assert(byte_views(fields@) =~= seq![json_field("path"@, json_str(e.path@)), json_field("blob"@, json_str(e.blob@))]);
    write_object(&fields, 4)
}

/// Copies a list of strings.
pub fn clone_strings(v: &Vec<String>) -> (r: Vec<String>)
    ensures
        string_views(r@) == string_views(v@),
{
    let mut r: Vec<String> = Vec::new();
    let mut i: usize = 0;
    while i < v.len()
        invariant
            i <= v@.len(),
            string_views(r@) == string_views(v@).take(i as int),
        decreases v.len() - i,
    {
        let ghost before = string_views(r@);
        let c = v[i].clone();
        r.push(c);
        assert(string_views(r@) =~= before.push(v@[i as int]@));
        i = i + 1;
        assert(string_views(r@) =~= string_views(v@).take(i as int));
    }
    assert(string_views(v@).take(i as int) =~= string_views(v@));
    r
}

/// A copy of the bytes.
pub fn clone_bytes(v: &Vec<u8>) -> (r: Vec<u8>)
    ensures
        r@ == v@,
{
    let mut r: Vec<u8> = Vec::new();
    crate::merge::append_bytes(&mut r, v.as_slice());
    assert(r@ =~= v@);
    r
}

impl TreeEntry {
    /// A copy of the entry.
    pub fn duplicate(&self) -> (r: TreeEntry)
        ensures
            r@ == self@,
    {
        TreeEntry { path: self.path.clone(), blob: self.blob.clone() }
    }
}

impl Object {
    /// A copy of the object.
    pub fn duplicate(&self) -> (r: Object)
        ensures
            r@ == self@,
    {
        match self {
            Object::Blob(b) => Object::Blob(Blob { bytes: clone_bytes(&b.bytes) }),
            Object::Tree(t) => {
                let mut entries: Vec<TreeEntry> = Vec::new();
                let mut i: usize = 0;
                while i < t.entries.len()
                    invariant
                        i <= t.entries@.len(),
                        entries@.map_values(|e: TreeEntry| e@) == t@.take(i as int),
                    decreases t.entries.len() - i,
                {
                    let ghost before = entries@.map_values(|e: TreeEntry| e@);
                    let e = t.entries[i].duplicate();
                    entries.push(e);
                    assert(entries@.map_values(|e: TreeEntry| e@) =~= before.push(t.entries@[i as int]@));
                    i = i + 1;
                    assert(entries@.map_values(|e: TreeEntry| e@) =~= t@.take(i as int));
                }
                assert(t@.take(i as int) =~= t@);
                Object::Tree(Tree { entries })
            },
            Object::Commit(c) => Object::Commit(
                Commit {
                    tree: c.tree.clone(),
                    parents: clone_strings(&c.parents),
                    message: c.message.clone(),
                    timestamp_secs: c.timestamp_secs,
                },
            ),
        }
    }

    /// The bytes stored for the object.
    pub fn to_bytes(&self) -> (r: Vec<u8>)
        ensures
            r@ == object_json(self@),
    {
        match self {
            Object::Blob(b) => {
                let arr = write_byte_array(b.bytes.as_slice(), 3);
                let mut data: Vec<Vec<u8>> = Vec::new();
                data.push(write_field("bytes", arr.as_slice()));
                assert(byte_views(data@) =~= seq![json_field("bytes"@, json_array(byte_numbers(b.bytes@), 3))]);
                write_tagged("Blob", &data)
            },
            Object::Tree(t) => {
                let mut items: Vec<Vec<u8>> = Vec::new();
                let ghost entries = t@;
                let mut i: usize = 0;
                while i < t.entries.len()
                    invariant
                        i <= t.entries@.len(),
                        entries == t@,
                        byte_views(items@) == entries.take(i as int).map_values(|e: (Seq<char>, Seq<char>)| entry_json(e)),
                    decreases t.entries.len() - i,
                {
                    let ghost before = byte_views(items@);
                    let item = write_entry(&t.entries[i]);
                    items.push(item);
                    assert(byte_views(items@) =~= before.push(entry_json(entries[i as int])));
                    i = i + 1;
                    assert(byte_views(items@) =~= entries.take(i as int).map_values(|e: (Seq<char>, Seq<char>)| entry_json(e)));
                }
                assert(entries.take(i as int) =~= entries);
                let arr = write_array(&items, 3);
                let mut data: Vec<Vec<u8>> = Vec::new();
                data.push(write_field("entries", arr.as_slice()));
                assert(byte_views(data@) =~= seq![json_field("entries"@, json_array(entries.map_values(|e: (Seq<char>, Seq<char>)| entry_json(e)), 3))]);
                write_tagged("Tree", &data)
            },
            Object::Commit(c) => {
                let mut data: Vec<Vec<u8>> = Vec::new();
                let tree = write_str(c.tree.as_str());
                data.push(write_field("tree", tree.as_slice()));
                let parents = write_string_array(&c.parents, 3);
                data.push(write_field("parents", parents.as_slice()));
                let message = write_str(c.message.as_str());
                data.push(write_field("message", message.as_slice()));
                let ts = write_u64(c.timestamp_secs);
                data.push(write_field("timestamp_secs", ts.as_slice()));
                assert(byte_views(data@) =~= seq![
                    json_field("tree"@, json_str(c.tree@)),
                    json_field("parents"@, json_array(string_views(c.parents@).map_values(|p: Seq<char>| json_str(p)), 3)),
                    json_field("message"@, json_str(c.message@)),
                    json_field("timestamp_secs"@, decimal(c.timestamp_secs as nat)),
                ]);
                write_tagged("Commit", &data)
            },
        }
    }

    /// The object's name: the hash of its stored bytes.
    pub fn hash(&self) -> (h: ObjectHash)
        ensures
            h@ == object_hash(self@),
            h@.len() == 64,
            crate::text::valid_object_hash(h@),
    {
        let bytes = self.to_bytes();
        let h = hash_bytes(bytes.as_slice());
        proof {
            crate::text::lemma_hex_chars_valid(h@);
        }
        h
    }
}

} // verus!
