use vstd::prelude::*;
use vstd::utf8::*;
use vstd::string::*;
use crate::path::{
    has_more, is_rejection, lemma_run_len, path_append_normal, sanitize, sanitize_text, ApiError,
    LibPath, PathView, Rejection, DOT, SEP,
};
use crate::identity::{
    decimal, html_suffix, is_digit, is_next_identity, next_identity, node_file, DirEntry,
};
use crate::listing::{sort_names, sorted_names};
use crate::text::{lemma_ascii_valid, split_list, split_names, text_of_bytes};

verus! {

broadcast use {encode_utf8_valid_utf8, encode_utf8_decode_utf8};

/// The state every operation is handed: the library root, fixed at startup.
pub struct AppState {
    pub library: String,
}

/// Where the content of `document` comes from.
pub enum DocumentSource {
    /// The named nodes, in the order given.
    Nodes(Vec<LibPath>),
    /// Every entry of this directory, in text order.
    Listing(LibPath),
}

/// `dir` with one more component.
pub open spec fn child(dir: PathView, name: Seq<char>) -> PathView {
    PathView { root: dir.root, parts: dir.parts.push(name) }
}

/// `seg` appended to `dir` through the sanitizer, or the refused segment and why.
pub open spec fn locate(dir: PathView, seg: Seq<char>) -> Result<PathView, (Seq<char>, Rejection)> {
    match sanitize_text(seg) {
        Ok(name) => Ok(child(dir, name)),
        Err(why) => Err((seg, why)),
    }
}

/// The file name of a node: its name followed by `.html`.
pub open spec fn file_text(node: Seq<char>) -> Seq<char> {
    decode_utf8(encode_utf8(node) + html_suffix())
}

/// The directory of a document under the library root.
pub open spec fn document_dir(root: Seq<char>, doc: Seq<char>) -> Result<PathView, (Seq<char>, Rejection)> {
    locate(PathView { root, parts: Seq::empty() }, doc)
}

/// The file of a node of a document under the library root.
pub open spec fn node_location(root: Seq<char>, doc: Seq<char>, node: Seq<char>) -> Result<
    PathView,
    (Seq<char>, Rejection),
> {
    match document_dir(root, doc) {
        Ok(dir) => locate(dir, file_text(node)),
        Err(e) => Err(e),
    }
}

/// The files of the listed nodes in `dir`, in order; the first refused name stops it.
pub open spec fn explicit_sources(dir: PathView, nodes: Seq<Seq<char>>) -> Result<
    Seq<PathView>,
    (Seq<char>, Rejection),
>
    decreases nodes.len(),
{
    if nodes.len() == 0 {
        Ok(Seq::empty())
    } else {
        match explicit_sources(dir, nodes.drop_last()) {
            Ok(ps) => match locate(dir, file_text(nodes.last())) {
                Ok(p) => Ok(ps.push(p)),
                Err(e) => Err(e),
            },
            Err(e) => Err(e),
        }
    }
}

pub open spec fn views(v: Seq<LibPath>) -> Seq<PathView> {
    v.map_values(|p: LibPath| p@)
}

/// `r` is the result that `locate` gives.
pub open spec fn located(r: Result<LibPath, ApiError>, l: Result<PathView, (Seq<char>, Rejection)>) -> bool {
    match l {
        Ok(p) => r is Ok && r->Ok_0@ == p,
        Err((seg, why)) => r is Err && is_rejection(r->Err_0, seg, why),
    }
}

impl AppState {
    pub fn new(library: String) -> (r: AppState)
        ensures
            r.library@ == library@,
    {
        AppState { library }
    }

    /// The directory of document `doc_raw`, if the sanitizer accepts its name.
    pub fn document_path(&self, doc_raw: &str) -> (r: Result<LibPath, ApiError>)
        ensures
            located(r, document_dir(self.library@, doc_raw@)),
    {
        let mut path = LibPath::new(self.library.clone());
        match path_append_normal(&mut path, doc_raw) {
            Ok(()) => Ok(path),
            Err(e) => Err(e),
        }
    }

    /// The file of node `node_raw` of document `doc_raw`: both names sanitized, the
    /// node's with `.html` appended. What reading, replacing and deleting a node use.
    pub fn node_path(&self, doc_raw: &str, node_raw: &str) -> (r: Result<LibPath, ApiError>)
        ensures
            located(r, node_location(self.library@, doc_raw@, node_raw@)),
    {
        let mut path = match self.document_path(doc_raw) {
            Ok(p) => p,
            Err(e) => return Err(e),
        };
        let file = node_file(node_raw);
        proof {
            decode_utf8_encode_utf8(encode_utf8(file@));
        }
        match path_append_normal(&mut path, file.as_str()) {
            Ok(()) => Ok(path),
            Err(e) => Err(e),
        }
    }
}

/// Where `document` reads from: the listed nodes (split at commas) in the given
/// order, or, with no list, the entries of the document's directory.
pub fn document(state: &AppState, doc_raw: &str, nodes: Option<&str>) -> (r: Result<
    DocumentSource,
    ApiError,
>)
    ensures
        match document_dir(state.library@, doc_raw@) {
            Err((seg, why)) => r is Err && is_rejection(r->Err_0, seg, why),
            Ok(dir) => match nodes {
                None => r is Ok && r->Ok_0 is Listing && r->Ok_0->Listing_0@ == dir,
                Some(list) => match explicit_sources(dir, split_names(list@)) {
                    Ok(ps) => r is Ok && r->Ok_0 is Nodes && views(r->Ok_0->Nodes_0@) == ps,
                    Err((seg, why)) => r is Err && is_rejection(r->Err_0, seg, why),
                },
            },
        },
{
    let dir = match state.document_path(doc_raw) {
        Ok(p) => p,
        Err(e) => return Err(e),
    };
    let list = match nodes {
        None => return Ok(DocumentSource::Listing(dir)),
        Some(list) => list,
    };
    let names = split_list(list);
    let ghost wanted = split_names(list@);
    assert(names@.map_values(|p: String| p@) == wanted);
    let mut paths: Vec<LibPath> = Vec::new();
    let mut i: usize = 0;
    assert(wanted.take(0) =~= Seq::<Seq<char>>::empty());
    assert(views(paths@) =~= Seq::<PathView>::empty());
    while i < names.len()
        invariant
            i <= names@.len(),
            paths@.len() == i,
            document_dir(state.library@, doc_raw@) == Ok::<PathView, (Seq<char>, Rejection)>(dir@),
            nodes == Some(list),
            wanted == split_names(list@),
            wanted.len() == names@.len(),
            forall|j: int| 0 <= j < names@.len() ==> #[trigger] names@[j]@ == wanted[j],
            explicit_sources(dir@, wanted.take(i as int)) == Ok::<Seq<PathView>, (Seq<char>, Rejection)>(views(paths@)),
        decreases names@.len() - i,
    {
        let file = node_file(names[i].as_str());
        proof {
            decode_utf8_encode_utf8(encode_utf8(file@));
            assert(wanted.take(i + 1).drop_last() =~= wanted.take(i as int));
        }
        let mut path = dir.clone_path();
        match path_append_normal(&mut path, file.as_str()) {
            Ok(()) => {},
            Err(e) => {
                proof {
                    lemma_sources_stop(dir@, wanted, i as int);
                }
                return Err(e);
            },
        }
        let ghost before = paths@;
        paths.push(path);
        assert(views(paths@) =~= views(before).push(paths@[i as int]@));
        i = i + 1;
    }
    assert(wanted.take(i as int) =~= wanted);
    Ok(DocumentSource::Nodes(paths))
}

/// Once a name of the list is refused, the names after it do not matter.
proof fn lemma_sources_stop(dir: PathView, nodes: Seq<Seq<char>>, i: int)
    requires
        0 <= i < nodes.len(),
        explicit_sources(dir, nodes.take(i)) is Ok,
        locate(dir, file_text(nodes[i])) is Err,
    ensures
        explicit_sources(dir, nodes) is Err,
        explicit_sources(dir, nodes)->Err_0 == locate(dir, file_text(nodes[i]))->Err_0,
    decreases nodes.len(),
{
    if i + 1 == nodes.len() {
        assert(nodes.drop_last() =~= nodes.take(i));
    } else {
        assert(nodes.drop_last().take(i) =~= nodes.take(i));
        lemma_sources_stop(dir, nodes.drop_last(), i);
    }
}

/// The files of a document's directory listing, in ascending text order of their
/// names (so `10.html` comes before `2.html`).
pub fn listing_sources(dir: &LibPath, names: &Vec<String>) -> (r: Vec<LibPath>)
    ensures
        exists|sorted: Seq<String>|
            {
                &&& sorted_names(sorted)
                &&& sorted.to_multiset() == names@.to_multiset()
                &&& r@.len() == sorted.len()
                &&& forall|i: int| 0 <= i < sorted.len() ==> #[trigger] r@[i]@ == child(dir@, sorted[i]@)
            },
{
    let sorted = sort_names(names);
    let mut out: Vec<LibPath> = Vec::new();
    let mut i: usize = 0;
    while i < sorted.len()
        invariant
            i <= sorted@.len(),
            out@.len() == i,
            forall|j: int| 0 <= j < i ==> #[trigger] out@[j]@ == child(dir@, sorted@[j]@),
        decreases sorted@.len() - i,
    {
        let mut path = dir.clone_path();
        path.push_raw(sorted[i].clone());
        out.push(path);
        i = i + 1;
    }
    out
}

fn push_decimal(out: &mut Vec<u8>, n: u64)
    ensures
        final(out)@ == old(out)@ + decimal(n as nat),
    decreases n,
{
    if n >= 10 {
        push_decimal(out, n / 10);
    }
    out.push((0x30 + n % 10) as u8);
    assert(final(out)@ =~= old(out)@ + decimal(n as nat));
}

proof fn lemma_decimal_digits(n: nat)
    ensures
        decimal(n).len() > 0,
        forall|i: int| 0 <= i < decimal(n).len() ==> is_digit(#[trigger] decimal(n)[i]),
    decreases n,
{
    if n >= 10 {
        lemma_decimal_digits(n / 10);
    }
}

/// The file name that a node with identity `n` gets.
pub open spec fn identity_file(n: nat) -> Seq<u8> {
    decimal(n) + html_suffix()
}

/// The path of the node that appending to the document in `dir` creates, given the
/// entries of that directory: `<id>.html` for the identity that `next_identity` gives.
pub fn document_append(dir: &LibPath, entries: &Vec<DirEntry>) -> (r: LibPath)
    ensures
        exists|id: nat|
            is_next_identity(entries@, id) && r@ == child(dir@, decode_utf8(identity_file(id))),
{
    let id = next_identity(entries);
    let mut bytes: Vec<u8> = Vec::new();
    push_decimal(&mut bytes, id);
    bytes.push(0x2e);
    bytes.push(0x68);
    bytes.push(0x74);
    bytes.push(0x6d);
    bytes.push(0x6c);
    let ghost b = bytes@;
    proof {
        lemma_decimal_digits(id as nat);
        assert(b =~= identity_file(id as nat));
        assert forall|i: int| 0 <= i < b.len() implies b[i] <= 0x7f by {
            if i < decimal(id as nat).len() {
                assert(is_digit(decimal(id as nat)[i]));
            }
        }
        lemma_ascii_valid(b);
    }
    let name = text_of_bytes(bytes).unwrap();
    proof {
        decode_utf8_encode_utf8(b);
        lemma_identity_file_normal(id as nat);
    }
    let mut path = dir.clone_path();
    let appended = path_append_normal(&mut path, name.as_str());
    assert(appended is Ok);
    path
}

/// A node file named by an identity is a single normal component.
proof fn lemma_identity_file_normal(n: nat)
    ensures
        sanitize(identity_file(n)) == Ok::<Seq<u8>, Rejection>(identity_file(n)),
{
    let b = identity_file(n);
    let d = decimal(n);
    lemma_decimal_digits(n);
    assert forall|j: int| 0 <= j < b.len() implies b[j] != SEP by {
        if j < d.len() {
            assert(is_digit(d[j]));
        }
    }
    lemma_run_len(b, SEP, b.len() as int);
    assert(b.take(b.len() as int) =~= b);
    assert(b.len() >= 6);
    assert(!has_more(b.skip(b.len() as int)));
    assert(b != seq![DOT] && b != seq![DOT, DOT]) by {
        assert(b.len() != 1 && b.len() != 2);
    }
}

/// Appends a node's content to the rendered document, if it is valid UTF-8; otherwise
/// leaves it as it was.
pub fn push_node(rendered: &mut String, content: Vec<u8>) -> (r: Result<(), ApiError>)
    ensures
        valid_utf8(content@) ==> r is Ok && final(rendered)@ == old(rendered)@ + decode_utf8(content@),
        !valid_utf8(content@) ==> r is Err && r->Err_0 is Utf8 && final(rendered)@ == old(rendered)@,
{
    match text_of_bytes(content) {
        Some(text) => {
            rendered.append(text.as_str());
            Ok(())
        },
        None => Err(ApiError::Utf8),
    }
}

} // verus!
