use vstd::prelude::*;
use vstd::utf8::*;
use vstd::string::StringSliceAdditionalSpecFns;
use crate::path::{run_len, lemma_run_len};

verus! {

/// Relies on `String::from_utf8`: it succeeds exactly on valid UTF-8, and the text
/// is then the one those bytes encode.
#[verifier::external_body]
pub(crate) fn text_of_bytes(b: Vec<u8>) -> (r: Option<String>)
    ensures
        r is Some <==> valid_utf8(b@),
        r is Some ==> r->0@ == decode_utf8(b@),
{
    String::from_utf8(b).ok()
}

/// Bytes that are all ASCII are valid UTF-8.
pub proof fn lemma_ascii_valid(b: Seq<u8>)
    requires
        forall|i: int| 0 <= i < b.len() ==> b[i] <= 0x7f,
    ensures
        valid_utf8(b),
{
    assert(b.subrange(0, 0) =~= Seq::<u8>::empty());
    assert(valid_utf8(Seq::<u8>::empty()));
    partial_valid_utf8_extend_ascii_block(b, 0, b.len() as int);
    assert(b.subrange(0, b.len() as int) =~= b);
}

/// The bytes of `s` followed by `tail`, as text: `s` with the text of `tail` appended.
pub fn text_with_suffix(s: &str, tail: &Vec<u8>) -> (r: String)
    requires
        valid_utf8(tail@),
    ensures
        encode_utf8(r@) == encode_utf8(s@) + tail@,
{
    let b = s.as_bytes();
    let mut out: Vec<u8> = Vec::new();
    let mut i: usize = 0;
    while i < b.len()
        invariant
            i <= b@.len(),
            out@ == b@.take(i as int),
        decreases b@.len() - i,
    {
        out.push(b[i]);
        i = i + 1;
        assert(out@ =~= b@.take(i as int));
    }
    let mut j: usize = 0;
    while j < tail.len()
        invariant
            j <= tail@.len(),
            out@ == b@ + tail@.take(j as int),
        decreases tail@.len() - j,
    {
        out.push(tail[j]);
        j = j + 1;
        assert(out@ =~= b@ + tail@.take(j as int));
    }
    assert(b@.take(b@.len() as int) =~= b@);
    assert(tail@.take(tail@.len() as int) =~= tail@);
    let ghost all = out@;
    proof {
        encode_utf8_valid_utf8(s@);
        valid_utf8_concat(b@, tail@);
    }
    let r = text_of_bytes(out);
    proof {
        decode_utf8_encode_utf8(all);
    }
    r.unwrap()
}

/// The byte `,`, which separates the names of a node list.
pub const COMMA: u8 = 0x2c;

/// The pieces of `b` between commas, in order; as many as there are commas, plus one.
pub open spec fn split_commas(b: Seq<u8>) -> Seq<Seq<u8>>
    decreases b.len(),
{
    let k = run_len(b, COMMA);
    if k >= b.len() {
        seq![b]
    } else {
        seq![b.take(k as int)] + split_commas(b.skip(k as int + 1))
    }
}

/// A comma-separated list of names, split as `split_commas` says on its bytes.
pub open spec fn split_names(s: Seq<char>) -> Seq<Seq<char>> {
    split_commas(encode_utf8(s)).map_values(|p: Seq<u8>| decode_utf8(p))
}

proof fn lemma_boundary_after_ascii(b: Seq<u8>)
    requires
        valid_utf8(b),
        b.len() > 0,
        b[0] <= 0x7f,
    ensures
        is_char_boundary(b, 1),
{
    reveal_with_fuel(is_char_boundary, 2);
}

/// Splits a comma-separated list into its names, as `split_names` says.
pub fn split_list(s: &str) -> (r: Vec<String>)
    ensures
        r@.map_values(|p: String| p@) == split_names(s@),
{
    broadcast use {encode_utf8_valid_utf8, encode_utf8_decode_utf8};

    let mut out: Vec<String> = Vec::new();
    let mut rest: &str = s;
    let ghost whole = encode_utf8(s@);
    assert(split_commas(whole) =~= split_commas(encode_utf8(rest@)));
    loop
        invariant_except_break
            out@.map_values(|p: String| encode_utf8(p@)) + split_commas(encode_utf8(rest@))
                == split_commas(whole),
        invariant
            whole == encode_utf8(s@),
        ensures
            out@.map_values(|p: String| encode_utf8(p@)) == split_commas(whole),
        decreases encode_utf8(rest@).len(),
    {
        let b = rest.as_bytes();
        let ghost t = b@;
        proof {
            assert(t == encode_utf8(rest@));
            encode_utf8_valid_utf8(rest@);
        }
        let mut k: usize = 0;
        while k < b.len() && b[k] != COMMA
            invariant
                k <= b@.len(),
                forall|j: int| 0 <= j < k ==> b@[j] != COMMA,
            decreases b@.len() - k,
        {
            k = k + 1;
        }
        proof {
            lemma_run_len(t, COMMA, k as int);
        }
        if k == b.len() {
            let last = rest.to_owned();
            let ghost before = out@;
            out.push(last);
            assert(out@.map_values(|p: String| encode_utf8(p@)) =~= before.map_values(
                |p: String| encode_utf8(p@),
            ) + split_commas(t));
            assert(split_commas(t) == seq![t]);
            break ;
        }
        proof {
            is_char_boundary_iff_is_leading_byte(t, k as int);
        }
        let (piece, tail) = rest.split_at(k);
        proof {
            assert(tail.spec_bytes() =~= t.skip(k as int));
            encode_utf8_valid_utf8(tail@);
            lemma_boundary_after_ascii(tail.spec_bytes());
        }
        let (_comma, after) = tail.split_at(1);
        let ghost before = out@;
        out.push(piece.to_owned());
        proof {
            assert(after.spec_bytes() =~= t.skip(k + 1));
            assert(piece.spec_bytes() =~= t.take(k as int));
            assert(out@.map_values(|p: String| encode_utf8(p@)) =~= before.map_values(
                |p: String| encode_utf8(p@),
            ).push(t.take(k as int)));
            assert(split_commas(t) == seq![t.take(k as int)] + split_commas(t.skip(k + 1)));
            assert(out@.map_values(|p: String| encode_utf8(p@)) + split_commas(t.skip(k + 1))
                =~= before.map_values(|p: String| encode_utf8(p@)) + split_commas(t));
        }
        rest = after;
    }
    assert(out@.map_values(|p: String| p@) =~= split_names(s@)) by {
        let bs = out@.map_values(|p: String| encode_utf8(p@));
        assert(bs =~= split_commas(whole));
        assert forall|i: int| 0 <= i < out@.len() implies #[trigger] out@[i]@ == decode_utf8(bs[i]) by {
        }
    }
    out
}

} // verus!
