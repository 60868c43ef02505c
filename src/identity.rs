use vstd::prelude::*;
use vstd::utf8::*;
use crate::text::{lemma_ascii_valid, text_with_suffix};

verus! {

broadcast use encode_utf8_valid_utf8;

/// The bytes of `.html`, the suffix of every node file.
pub open spec fn html_suffix() -> Seq<u8> {
    seq![0x2eu8, 0x68u8, 0x74u8, 0x6du8, 0x6cu8]
}

/// A file name without a trailing `.html`, if it has one.
pub open spec fn stem(b: Seq<u8>) -> Seq<u8> {
    if b.len() >= 5 && b.skip(b.len() - 5) == html_suffix() {
        b.take(b.len() - 5)
    } else {
        b
    }
}

pub open spec fn is_digit(c: u8) -> bool {
    0x30 <= c <= 0x39
}

pub open spec fn all_digits(d: Seq<u8>) -> bool {
    forall|i: int| 0 <= i < d.len() ==> is_digit(#[trigger] d[i])
}

/// The number that a run of decimal digits writes.
pub open spec fn digits_value(d: Seq<u8>) -> nat
    decreases d.len(),
{
    if d.len() == 0 {
        0
    } else {
        10 * digits_value(d.drop_last()) + (d.last() - 0x30) as nat
    }
}

/// How `u32` reads from text: an optional `+`, then at least one decimal digit, and a
/// value that fits in 32 bits.
pub open spec fn parse_u32(b: Seq<u8>) -> Option<nat> {
    let d = if b.len() > 0 && b[0] == 0x2b { b.drop_first() } else { b };
    if d.len() > 0 && all_digits(d) && digits_value(d) <= u32::MAX {
        Some(digits_value(d))
    } else {
        None
    }
}

/// A directory entry as the store reads it: its name where that is valid text, and
/// whether it is a regular file.
pub struct DirEntry {
    pub name: Option<String>,
    pub is_file: bool,
}

/// The integer identity that an entry carries, if any: a regular file whose name,
/// without `.html`, reads as a `u32`.
pub open spec fn entry_index(e: DirEntry) -> Option<nat> {
    if e.is_file && e.name is Some {
        parse_u32(stem(encode_utf8(e.name->0@)))
    } else {
        None
    }
}

/// A number that no entry carries and one above the largest that an entry carries
/// (zero where none carries one).
pub open spec fn is_next_identity(entries: Seq<DirEntry>, r: nat) -> bool {
    &&& forall|i: int| 0 <= i < entries.len() && (#[trigger] entry_index(entries[i])) is Some
        ==> entry_index(entries[i])->0 < r
    &&& (r == 0 || exists|i: int| 0 <= i < entries.len()
        && #[trigger] entry_index(entries[i]) == Some((r - 1) as nat))
}

/// The decimal digits of `n`, most significant first, with no leading zero.
pub open spec fn decimal(n: nat) -> Seq<u8>
    decreases n,
{
    if n < 10 {
        seq![(0x30 + n) as u8]
    } else {
        decimal(n / 10).push((0x30 + n % 10) as u8)
    }
}

proof fn lemma_digits_prefix(d: Seq<u8>, j: int)
    requires
        0 <= j <= d.len(),
    ensures
        digits_value(d.take(j)) <= digits_value(d),
    decreases d.len(),
{
    if j < d.len() {
        assert(d.drop_last().take(j) =~= d.take(j));
        lemma_digits_prefix(d.drop_last(), j);
    } else {
        assert(d.take(j) =~= d);
    }
}

proof fn lemma_digits_step(d: Seq<u8>, i: int)
    requires
        0 <= i < d.len(),
    ensures
        digits_value(d.take(i + 1)) == 10 * digits_value(d.take(i)) + (d[i] - 0x30) as nat,
{
    assert(d.take(i + 1).drop_last() =~= d.take(i));
}

/// Reads bytes `b[start..end]` as a `u32`, as `parse_u32` says.
fn parse_u32_range(b: &[u8], start: usize, end: usize) -> (r: Option<u32>)
    requires
        start <= end <= b@.len(),
    ensures
        match parse_u32(b@.subrange(start as int, end as int)) {
            Some(v) => r == Some(v as u32),
            None => r is None,
        },
{
    let ghost s = b@.subrange(start as int, end as int);
    let mut i: usize = start;
    if i < end && b[i] == 0x2b {
        i = i + 1;
    }
    let ghost d = b@.subrange(i as int, end as int);
    assert(d =~= (if s.len() > 0 && s[0] == 0x2b { s.drop_first() } else { s }));
    if i == end {
        return None;
    }
    let first = i;
    let mut acc: u64 = 0;
    while i < end
        invariant
            first <= i <= end <= b@.len(),
            d == b@.subrange(first as int, end as int),
            s == b@.subrange(start as int, end as int),
            d == (if s.len() > 0 && s[0] == 0x2b { s.drop_first() } else { s }),
            d.len() > 0,
            acc == digits_value(d.take(i - first)),
            acc <= u32::MAX,
            all_digits(d.take(i - first)),
        decreases end - i,
    {
        let c = b[i];
        if c < 0x30 || c > 0x39 {
            assert(!is_digit(d[i - first]));
            return None;
        }
        proof {
            lemma_digits_step(d, i - first);
        }
        acc = acc * 10 + (c - 0x30) as u64;
        i = i + 1;
        assert(all_digits(d.take(i - first))) by {
            assert forall|j: int| 0 <= j < i - first implies is_digit(#[trigger] d.take(i - first)[j]) by {
                if j < i - first - 1 {
                    assert(d.take(i - first)[j] == d.take(i - first - 1)[j]);
                }
            }
        }
        if acc > 0xffff_ffff {
            proof {
                lemma_digits_prefix(d, i - first);
            }
            return None;
        }
    }
    assert(d.take(i - first) =~= d);
    Some(acc as u32)
}

/// The identity that a directory entry carries, as `entry_index` says.
pub fn entry_identity(e: &DirEntry) -> (r: Option<u32>)
    ensures
        match entry_index(*e) {
            Some(v) => r == Some(v as u32),
            None => r is None,
        },
{
    if !e.is_file {
        return None;
    }
    match &e.name {
        None => None,
        Some(name) => {
            let b = name.as_str().as_bytes();
            let n = b.len();
            let mut end = n;
            if n >= 5 && b[n - 5] == 0x2e && b[n - 4] == 0x68 && b[n - 3] == 0x74 && b[n - 2]
                == 0x6d && b[n - 1] == 0x6c {
                end = n - 5;
                assert(b@.skip(n - 5) =~= html_suffix());
            } else {
                assert(n >= 5 ==> b@.skip(n - 5) != html_suffix()) by {
                    if n >= 5 && b@.skip(n - 5) == html_suffix() {
                        assert(b@.skip(n - 5)[0] == b@[n - 5]);
                        assert(b@.skip(n - 5)[1] == b@[n - 4]);
                        assert(b@.skip(n - 5)[2] == b@[n - 3]);
                        assert(b@.skip(n - 5)[3] == b@[n - 2]);
                        assert(b@.skip(n - 5)[4] == b@[n - 1]);
                    }
                }
            }
            assert(b@.subrange(0, end as int) =~= stem(b@));
            parse_u32_range(b, 0, end)
        },
    }
}

/// The identity for a new node: one above the largest integer identity among the
/// entries, or zero where there is none. Gaps and other names are ignored.
pub fn next_identity(entries: &Vec<DirEntry>) -> (r: u64)
    ensures
        is_next_identity(entries@, r as nat),
{
    let mut candidate: u64 = 0;
    let mut i: usize = 0;
    while i < entries.len()
        invariant
            i <= entries@.len(),
            candidate <= u32::MAX + 1,
            is_next_identity(entries@.take(i as int), candidate as nat),
        decreases entries@.len() - i,
    {
        let v = entry_identity(&entries[i]);
        let ghost before = entries@.take(i as int);
        let ghost after = entries@.take(i + 1);
        assert(forall|j: int| 0 <= j < i ==> after[j] == before[j]);
        assert(after[i as int] == entries@[i as int]);
        match v {
            Some(v) => {
                if v as u64 >= candidate {
                    candidate = v as u64 + 1;
                    assert(entry_index(after[i as int]) == Some((candidate - 1) as nat));
                }
            },
            None => {},
        }
        i = i + 1;
    }
    assert(entries@.take(i as int) =~= entries@);
    candidate
}

/// The file name of a node: its name followed by `.html`.
pub fn node_file(node: &str) -> (r: String)
    ensures
        encode_utf8(r@) == encode_utf8(node@) + html_suffix(),
{
    let tail: Vec<u8> = vec![0x2e, 0x68, 0x74, 0x6d, 0x6c];
    assert(tail@ =~= html_suffix());
    proof {
        lemma_ascii_valid(tail@);
    }
    text_with_suffix(node, &tail)
}

} // verus!
