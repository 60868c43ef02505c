use vstd::prelude::*;
use vstd::utf8::*;
use crate::path::PathView;
use crate::identity::{is_next_identity, entry_index, DirEntry};
use crate::store::{child, identity_file, node_location};

verus! {

broadcast use {encode_utf8_valid_utf8, encode_utf8_decode_utf8};

/// The directories and files below the library root, as the store sees them: a file's
/// content is its bytes.
pub struct FsModel {
    pub dirs: Set<PathView>,
    pub files: Map<PathView, Seq<u8>>,
}

/// The directory that holds `p`.
pub open spec fn parent(p: PathView) -> PathView {
    PathView { root: p.root, parts: p.parts.drop_last() }
}

/// Writing a file creates or truncates it; it fails where its directory is missing.
pub open spec fn write_file(fs: FsModel, p: PathView, content: Seq<u8>) -> Option<FsModel> {
    if fs.dirs.contains(parent(p)) {
        Some(FsModel { dirs: fs.dirs, files: fs.files.insert(p, content) })
    } else {
        None
    }
}

/// An exclusive create: it fails where the file exists or its directory is missing.
pub open spec fn create_new(fs: FsModel, p: PathView, content: Seq<u8>) -> Option<FsModel> {
    if fs.dirs.contains(parent(p)) && !fs.files.contains_key(p) {
        Some(FsModel { dirs: fs.dirs, files: fs.files.insert(p, content) })
    } else {
        None
    }
}

/// Removing a file fails where there is none.
pub open spec fn remove_file(fs: FsModel, p: PathView) -> Option<FsModel> {
    if fs.files.contains_key(p) {
        Some(FsModel { dirs: fs.dirs, files: fs.files.remove(p) })
    } else {
        None
    }
}

/// Reading a file as text fails where there is none or it is not valid UTF-8.
pub open spec fn read_text(fs: FsModel, p: PathView) -> Option<Seq<char>> {
    if fs.files.contains_key(p) && valid_utf8(fs.files[p]) {
        Some(decode_utf8(fs.files[p]))
    } else {
        None
    }
}

/// Replacing a node: its content written, as UTF-8, to the file that `node_location` names.
pub open spec fn replace_node(fs: FsModel, root: Seq<char>, doc: Seq<char>, node: Seq<char>, body: Seq<char>) -> Option<FsModel> {
    match node_location(root, doc, node) {
        Ok(p) => write_file(fs, p, encode_utf8(body)),
        Err(_) => None,
    }
}

/// Reading a node.
pub open spec fn read_node(fs: FsModel, root: Seq<char>, doc: Seq<char>, node: Seq<char>) -> Option<Seq<char>> {
    match node_location(root, doc, node) {
        Ok(p) => read_text(fs, p),
        Err(_) => None,
    }
}

/// Deleting a node.
pub open spec fn delete_node(fs: FsModel, root: Seq<char>, doc: Seq<char>, node: Seq<char>) -> Option<FsModel> {
    match node_location(root, doc, node) {
        Ok(p) => remove_file(fs, p),
        Err(_) => None,
    }
}

/// Appending a node with identity `id` to the document in `dir`: an exclusive create
/// of `<id>.html`.
pub open spec fn append_node(fs: FsModel, dir: PathView, id: nat, body: Seq<char>) -> Option<FsModel> {
    create_new(fs, child(dir, decode_utf8(identity_file(id))), encode_utf8(body))
}

/// Replacing a node and then reading it gives back exactly the content written.
pub proof fn lemma_replace_then_read(
    fs: FsModel,
    root: Seq<char>,
    doc: Seq<char>,
    node: Seq<char>,
    body: Seq<char>,
)
    requires
        replace_node(fs, root, doc, node, body) is Some,
    ensures
        read_node(replace_node(fs, root, doc, node, body)->0, root, doc, node) == Some(body),
{
}

/// Deleting a node that does not exist fails; deleting one that exists removes that
/// file and no other, and leaves every other file's content as it was.
pub proof fn lemma_delete_node(fs: FsModel, root: Seq<char>, doc: Seq<char>, node: Seq<char>)
    requires
        node_location(root, doc, node) is Ok,
    ensures
        ({
            let p = node_location(root, doc, node)->Ok_0;
            &&& !fs.files.contains_key(p) ==> delete_node(fs, root, doc, node) is None
            &&& fs.files.contains_key(p) ==> {
                let after = delete_node(fs, root, doc, node);
                &&& after is Some
                &&& !after->0.files.contains_key(p)
                &&& forall|q: PathView| q != p ==> (#[trigger] after->0.files.contains_key(q)
                    == fs.files.contains_key(q) && (fs.files.contains_key(q) ==> after->0.files[q]
                    == fs.files[q]))
            }
        }),
{
}

/// Only one identity is next for a given listing.
pub proof fn lemma_next_identity_unique(entries: Seq<DirEntry>, a: nat, b: nat)
    requires
        is_next_identity(entries, a),
        is_next_identity(entries, b),
    ensures
        a == b,
{
    if a < b {
        let i = choose|i: int| 0 <= i < entries.len() && #[trigger] entry_index(entries[i]) == Some((b - 1) as nat);
        assert(entry_index(entries[i])->0 < a);
    } else if b < a {
        let i = choose|i: int| 0 <= i < entries.len() && #[trigger] entry_index(entries[i]) == Some((a - 1) as nat);
        assert(entry_index(entries[i])->0 < b);
    }
}

/// Two appends that read the same listing of a document claim the same identity;
/// where that node does not exist yet, the first create succeeds and the second
/// fails, so exactly one node is added and it holds the first content.
pub proof fn lemma_append_race(
    fs: FsModel,
    dir: PathView,
    entries: Seq<DirEntry>,
    first: nat,
    second: nat,
    body1: Seq<char>,
    body2: Seq<char>,
)
    requires
        is_next_identity(entries, first),
        is_next_identity(entries, second),
        fs.dirs.contains(dir),
        !fs.files.contains_key(child(dir, decode_utf8(identity_file(first)))),
    ensures
        ({
            let p = child(dir, decode_utf8(identity_file(first)));
            let after = append_node(fs, dir, first, body1);
            &&& after is Some
            &&& append_node(after->0, dir, second, body2) is None
            &&& after->0.files == fs.files.insert(p, encode_utf8(body1))
        }),
{
    lemma_next_identity_unique(entries, first, second);
    let p = child(dir, decode_utf8(identity_file(first)));
    assert(parent(p).parts =~= dir.parts);
}

} // verus!
