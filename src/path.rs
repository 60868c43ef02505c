use vstd::prelude::*;
use vstd::utf8::*;

verus! {

broadcast use {encode_utf8_valid_utf8, encode_utf8_decode_utf8};

/// The path separator byte `/`.
pub const SEP: u8 = 0x2f;

/// The byte `.`.
pub const DOT: u8 = 0x2e;

/// Why a segment was refused by the sanitizer.
#[derive(PartialEq, Eq, Structural, Clone, Copy, Debug)]
pub enum Rejection {
    /// The segment holds no component at all.
    Empty,
    /// The segment starts at the root, so it would override the base.
    RootDir,
    /// The first component is `.`.
    CurDir,
    /// The first component is `..`.
    ParentDir,
    /// A normal first component is followed by more components.
    Trailing,
}

/// Errors of the document store.
#[derive(Debug)]
pub enum ApiError {
    /// A segment was refused by the sanitizer (the segment, and why).
    Invalid(String, Rejection),
    /// A filesystem operation failed (its message).
    Io(String),
    /// A file's content is not valid UTF-8.
    Utf8,
}

/// A path below the library root: the root and the components appended to it.
pub struct LibPath {
    pub root: String,
    pub parts: Vec<String>,
}

pub struct PathView {
    pub root: Seq<char>,
    pub parts: Seq<Seq<char>>,
}

impl View for LibPath {
    type V = PathView;

    open spec fn view(&self) -> PathView {
        PathView { root: self.root@, parts: self.parts@.map_values(|p: String| p@) }
    }
}

/// Number of bytes before the first `c` (the whole length if there is none).
pub open spec fn run_len(b: Seq<u8>, c: u8) -> nat
    decreases b.len(),
{
    if b.len() == 0 || b[0] == c {
        0
    } else {
        1 + run_len(b.drop_first(), c)
    }
}

/// Number of bytes before the first separator.
pub open spec fn head_len(b: Seq<u8>) -> nat {
    run_len(b, SEP)
}

/// A `.` at index `i` that forms a component of its own (after a separator).
pub open spec fn lone_dot(t: Seq<u8>, i: int) -> bool {
    &&& 0 < i < t.len()
    &&& t[i] == DOT
    &&& t[i - 1] == SEP
    &&& (i + 1 == t.len() || t[i + 1] == SEP)
}

/// The bytes after the first component form a further component: some byte that is
/// neither a separator nor a lone `.`, which paths skip.
pub open spec fn has_more(t: Seq<u8>) -> bool {
    exists|i: int| 0 <= i < t.len() && t[i] != SEP && !lone_dot(t, i)
}

/// The lexical rule for one untrusted segment, over its UTF-8 bytes: the name of its
/// single normal component, or why it is refused.
pub open spec fn sanitize(b: Seq<u8>) -> Result<Seq<u8>, Rejection> {
    let k = head_len(b);
    if b.len() == 0 {
        Err(Rejection::Empty)
    } else if k == 0 {
        Err(Rejection::RootDir)
    } else if b.take(k as int) == seq![DOT] {
        Err(Rejection::CurDir)
    } else if b.take(k as int) == seq![DOT, DOT] {
        Err(Rejection::ParentDir)
    } else if has_more(b.skip(k as int)) {
        Err(Rejection::Trailing)
    } else {
        Ok(b.take(k as int))
    }
}

/// `sanitize` on text.
pub open spec fn sanitize_text(s: Seq<char>) -> Result<Seq<char>, Rejection> {
    match sanitize(encode_utf8(s)) {
        Ok(name) => Ok(decode_utf8(name)),
        Err(why) => Err(why),
    }
}

/// The error value for a refused segment.
pub open spec fn is_rejection(e: ApiError, seg: Seq<char>, why: Rejection) -> bool {
    match e {
        ApiError::Invalid(s, w) => s@ == seg && w == why,
        _ => false,
    }
}

pub proof fn lemma_run_len(b: Seq<u8>, c: u8, k: int)
    requires
        0 <= k <= b.len(),
        forall|j: int| 0 <= j < k ==> b[j] != c,
        k == b.len() || b[k] == c,
    ensures
        run_len(b, c) == k,
    decreases k,
{
    if k > 0 {
        lemma_run_len(b.drop_first(), c, k - 1);
    }
}

/// The bytes of joined text are the bytes of each part, joined.
pub proof fn lemma_encode_concat(a: Seq<char>, b: Seq<char>)
    ensures
        encode_utf8(a + b) == encode_utf8(a) + encode_utf8(b),
    decreases a.len(),
{
    if a.len() == 0 {
        assert(a + b =~= b);
        assert(encode_utf8(a) =~= Seq::<u8>::empty());
        assert(encode_utf8(a) + encode_utf8(b) =~= encode_utf8(b));
    } else {
        assert((a + b).drop_first() =~= a.drop_first() + b);
        lemma_encode_concat(a.drop_first(), b);
        assert(encode_utf8(a + b) =~= encode_utf8(a) + encode_utf8(b));
    }
}

/// Only `/` itself has the separator byte in its encoding.
proof fn lemma_scalar_no_sep(c: char)
    requires
        c != '/',
    ensures
        forall|j: int| 0 <= j < encode_scalar(c as u32).len() ==> #[trigger] encode_scalar(c as u32)[j] != SEP,
{
    let v = c as u32;
    char_is_scalar(c);
    if has_width_1_encoding(v) {
        if v == 47 {
            char_u32_cast(c, v);
            char_u32_cast('/', 47u32);
        }
        assert((v & 0x7f) as u8 != 0x2fu8) by (bit_vector)
            requires
                v <= 0x7f,
                v != 47,
        ;
    } else {
        assert(0xC0u8 | ((v >> 6) & 0x1F) as u8 != 0x2fu8) by (bit_vector);
        assert(0xE0u8 | ((v >> 12) & 0x0F) as u8 != 0x2fu8) by (bit_vector);
        assert(0xF0u8 | ((v >> 18) & 0x7) as u8 != 0x2fu8) by (bit_vector);
        assert(0x80u8 | (v & 0x3F) as u8 != 0x2fu8) by (bit_vector);
        assert(0x80u8 | ((v >> 6) & 0x3F) as u8 != 0x2fu8) by (bit_vector);
        assert(0x80u8 | ((v >> 12) & 0x3F) as u8 != 0x2fu8) by (bit_vector);
    }
}

/// Text without `/` has no separator byte in its encoding.
proof fn lemma_text_no_sep(s: Seq<char>)
    requires
        forall|i: int| 0 <= i < s.len() ==> s[i] != '/',
    ensures
        forall|j: int| 0 <= j < encode_utf8(s).len() ==> #[trigger] encode_utf8(s)[j] != SEP,
    decreases s.len(),
{
    if s.len() > 0 {
        lemma_scalar_no_sep(s[0]);
        lemma_text_no_sep(s.drop_first());
        let e = encode_scalar(s[0] as u32);
        let t = encode_utf8(s.drop_first());
        assert(encode_utf8(s) == e + t);
        assert forall|j: int| 0 <= j < encode_utf8(s).len() implies #[trigger] encode_utf8(s)[j]
            != SEP by {
            if j < e.len() {
                assert(encode_utf8(s)[j] == e[j]);
            } else {
                assert(encode_utf8(s)[j] == t[j - e.len()]);
            }
        }
    }
}

/// A segment whose first component is `.` or `..` is refused, whatever follows the
/// separator after it.
pub proof fn lemma_dot_components_rejected(first: Seq<char>, rest: Seq<char>)
    requires
        first == seq!['.'] || first == seq!['.', '.'],
        rest.len() == 0 || rest[0] == '/',
    ensures
        sanitize_text(first + rest) == Err::<Seq<char>, Rejection>(
            if first.len() == 1 { Rejection::CurDir } else { Rejection::ParentDir },
        ),
{
    let b = encode_utf8(first + rest);
    lemma_encode_concat(first, rest);
    assert(is_ascii_chars(first));
    is_ascii_chars_encode_utf8(first);
    let k = first.len() as int;
    if rest.len() > 0 {
        assert(rest =~= seq!['/'] + rest.drop_first());
        lemma_encode_concat(seq!['/'], rest.drop_first());
        assert(is_ascii_chars(seq!['/']));
        is_ascii_chars_encode_utf8(seq!['/']);
        assert(b[k] == SEP);
    }
    lemma_run_len(b, SEP, k);
    if first.len() == 1 {
        assert(b.take(k) =~= seq![DOT]);
    } else {
        assert(b.take(k) =~= seq![DOT, DOT]);
    }
}

/// A segment that is one normal name (not empty, no `/`, neither `.` nor `..`) is
/// accepted as exactly that name.
pub proof fn lemma_normal_name_accepted(s: Seq<char>)
    requires
        s.len() > 0,
        forall|i: int| 0 <= i < s.len() ==> s[i] != '/',
        s != seq!['.'],
        s != seq!['.', '.'],
    ensures
        sanitize_text(s) == Ok::<Seq<char>, Rejection>(s),
{
    let b = encode_utf8(s);
    lemma_text_no_sep(s);
    assert(b.len() > 0) by {
        char_is_scalar(s[0]);
        assert(b =~= encode_scalar(s[0] as u32) + encode_utf8(s.drop_first()));
    }
    lemma_run_len(b, SEP, b.len() as int);
    assert(b.take(b.len() as int) =~= b);
    assert(!has_more(b.skip(b.len() as int)));
    assert(is_ascii_chars(seq!['.']));
    is_ascii_chars_encode_utf8(seq!['.']);
    assert(encode_utf8(seq!['.']) =~= seq![DOT]);
    assert(is_ascii_chars(seq!['.', '.']));
    is_ascii_chars_encode_utf8(seq!['.', '.']);
    assert(encode_utf8(seq!['.', '.']) =~= seq![DOT, DOT]);
    if b == seq![DOT] {
        assert(decode_utf8(b) == seq!['.']);
    }
    if b == seq![DOT, DOT] {
        assert(decode_utf8(b) == seq!['.', '.']);
    }
}

impl LibPath {
    /// The library root itself.
    pub fn new(root: String) -> (r: LibPath)
        ensures
            r@.root == root@,
            r@.parts == Seq::<Seq<char>>::empty(),
    {
        LibPath { root, parts: Vec::new() }
    }

    pub fn clone_path(&self) -> (r: LibPath)
        ensures
            r@ == self@,
    {
        let mut parts: Vec<String> = Vec::new();
        let mut i: usize = 0;
        while i < self.parts.len()
            invariant
                i <= self.parts.len(),
                parts@ == self.parts@.take(i as int),
            decreases self.parts.len() - i,
        {
            let p = self.parts[i].clone();
            parts.push(p);
            i = i + 1;
            assert(parts@ =~= self.parts@.take(i as int));
        }
        assert(self.parts@.take(i as int) =~= self.parts@);
        LibPath { root: self.root.clone(), parts }
    }

    /// Appends a component as it is, with no check.
    pub fn push_raw(&mut self, part: String)
        ensures
            final(self)@.root == old(self)@.root,
            final(self)@.parts == old(self)@.parts.push(part@),
    {
        self.parts.push(part);
        assert(self@.parts =~= old(self)@.parts.push(part@));
    }
}

/// Appends `new_component` to `path` if it is exactly one normal component (no `.`,
/// `..`, root, and nothing after the name but separators and `.`); otherwise leaves
/// `path` as it was and says why. Purely lexical.
pub fn path_append_normal(path: &mut LibPath, new_component: &str) -> (r: Result<(), ApiError>)
    ensures
        match sanitize_text(new_component@) {
            Ok(name) => r is Ok && final(path)@.root == old(path)@.root
                && final(path)@.parts == old(path)@.parts.push(name),
            Err(why) => r is Err && is_rejection(r->Err_0, new_component@, why)
                && final(path)@ == old(path)@,
        },
{
    let b = new_component.as_bytes();
    let n = b.len();
    proof {
        assert(b@ == encode_utf8(new_component@));
    }
    let mut k: usize = 0;
    while k < n && b[k] != SEP
        invariant
            k <= n,
            n == b@.len(),
            forall|j: int| 0 <= j < k ==> b@[j] != SEP,
        decreases n - k,
    {
        k = k + 1;
    }
    proof {
        lemma_run_len(b@, SEP, k as int);
    }
    let ghost head = b@.take(k as int);
    if n == 0 {
        return Err(ApiError::Invalid(new_component.to_owned(), Rejection::Empty));
    }
    if k == 0 {
        return Err(ApiError::Invalid(new_component.to_owned(), Rejection::RootDir));
    }
    if k == 1 && b[0] == DOT {
        assert(head =~= seq![DOT]);
        return Err(ApiError::Invalid(new_component.to_owned(), Rejection::CurDir));
    }
    if k == 2 && b[0] == DOT && b[1] == DOT {
        assert(head =~= seq![DOT, DOT]);
        return Err(ApiError::Invalid(new_component.to_owned(), Rejection::ParentDir));
    }
    assert(head != seq![DOT]) by {
        if head == seq![DOT] {
            assert(head.len() == 1 && head[0] == DOT);
        }
    }
    assert(head != seq![DOT, DOT]) by {
        if head == seq![DOT, DOT] {
            assert(head.len() == 2 && head[0] == DOT && head[1] == DOT);
        }
    }
    let ghost t = b@.skip(k as int);
    let mut i: usize = k;
    while i < n
        invariant
            k <= i <= n,
            n == b@.len(),
            t == b@.skip(k as int),
            0 < k,
            head_len(b@) == k,
            head == b@.take(k as int),
            head != seq![DOT],
            head != seq![DOT, DOT],
            b@ == encode_utf8(new_component@),
            forall|j: int| 0 <= j < i - k ==> t[j] == SEP || lone_dot(t, j),
        decreases n - i,
    {
        let c = b[i];
        let lone = c == DOT && i > k && b[i - 1] == SEP && (i + 1 == n || b[i + 1] == SEP);
        if c != SEP && !lone {
            assert(t[i - k] != SEP && !lone_dot(t, i - k));
            assert(has_more(t));
            return Err(ApiError::Invalid(new_component.to_owned(), Rejection::Trailing));
        }
        i = i + 1;
    }
    assert(!has_more(t));
    if k < n {
        proof {
            is_char_boundary_iff_is_leading_byte(b@, k as int);
        }
    } else {
        proof {
            is_char_boundary_start_end_of_seq(b@);
        }
    }
    let (name, _rest) = new_component.split_at(k);
    let name = name.to_owned();
    proof {
        assert(encode_utf8(name@) =~= head);
    }
    path.push_raw(name);
    Ok(())
}

} // verus!
