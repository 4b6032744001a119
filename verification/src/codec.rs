//! The byte-level path codec: relative paths are written as their components'
//! UTF-8 bytes joined by `/`, and read back by splitting on `/` and checking
//! each piece for UTF-8 validity.

use vstd::prelude::*;
use vstd::utf8::*;
use crate::hash::components_view;

verus! {

/// The separator byte between path components: ASCII '/'.
pub const SLASH: u8 = 47;

/// A well-formed path component: nonempty and free of the separator.
pub open spec fn wf_component(c: Seq<char>) -> bool {
    c.len() > 0 && !c.contains('/')
}

/// Every component of the list is well formed.
pub open spec fn wf_components(path: Seq<Seq<char>>) -> bool {
    forall|i: int| 0 <= i < path.len() ==> wf_component(#[trigger] path[i])
}

/// A well-formed relative path: at least one component, each well formed.
/// The tracked root itself is represented as the single component `.`.
pub open spec fn wf_path(path: Seq<Seq<char>>) -> bool {
    path.len() > 0 && wf_components(path)
}

/// The UTF-8 bytes of each component of a path.
pub open spec fn encoded_components(path: Seq<Seq<char>>) -> Seq<Seq<u8>> {
    Seq::new(path.len(), |i: int| encode_utf8(path[i]))
}

/// Byte pieces joined with the separator, no trailing separator.
pub open spec fn join_pieces(pieces: Seq<Seq<u8>>) -> Seq<u8>
    decreases pieces.len(),
{
    if pieces.len() == 0 {
        Seq::empty()
    } else if pieces.len() == 1 {
        pieces[0]
    } else {
        pieces[0] + seq![SLASH] + join_pieces(pieces.drop_first())
    }
}

/// The on-disk bytes of a relative path: components' UTF-8 bytes joined by '/'.
pub open spec fn joined_path(path: Seq<Seq<char>>) -> Seq<u8> {
    join_pieces(encoded_components(path))
}

/// The length of the first piece: the index of the first separator, or the
/// whole length when there is none.
pub open spec fn first_piece_len(b: Seq<u8>) -> int
    decreases b.len(),
{
    if b.len() == 0 {
        0
    } else if b[0] == SLASH {
        0
    } else {
        1 + first_piece_len(b.drop_first())
    }
}

/// Splitting a byte string on every separator.  An input with no separator
/// yields one piece (possibly empty), matching how the payload path region is
/// read back.
pub open spec fn split_path(b: Seq<u8>) -> Seq<Seq<u8>>
    decreases b.len(),
    via split_path_decreases
{
    let n = first_piece_len(b);
    if n == b.len() {
        seq![b]
    } else {
        seq![b.take(n)] + split_path(b.skip(n + 1))
    }
}

#[via_fn]
proof fn split_path_decreases(b: Seq<u8>) {
    lemma_first_piece_len_bounds(b);
}

/// A piece read back from the path region must be nonempty and valid UTF-8.
pub open spec fn piece_ok(p: Seq<u8>) -> bool {
    p.len() > 0 && valid_utf8(p)
}

/// The decoded component list of a path region, or `None` when some piece is
/// empty or not valid UTF-8.
pub open spec fn spec_decode_path(b: Seq<u8>) -> Option<Seq<Seq<char>>> {
    let pieces = split_path(b);
    if forall|i: int| 0 <= i < pieces.len() ==> piece_ok(#[trigger] pieces[i]) {
        Some(Seq::new(pieces.len(), |i: int| decode_utf8(pieces[i])))
    } else {
        None
    }
}

proof fn lemma_first_piece_len_bounds(b: Seq<u8>)
    ensures
        0 <= first_piece_len(b) <= b.len(),
        forall|k: int| 0 <= k < first_piece_len(b) ==> b[k] != SLASH,
        first_piece_len(b) < b.len() ==> b[first_piece_len(b)] == SLASH,
    decreases b.len(),
{
    if b.len() != 0 && b[0] != SLASH {
        lemma_first_piece_len_bounds(b.drop_first());
        assert forall|k: int| 0 <= k < first_piece_len(b) implies b[k] != SLASH by {
            if k > 0 {
                assert(b.drop_first()[k - 1] != SLASH);
            }
        }
        if first_piece_len(b) < b.len() {
            assert(b.drop_first()[first_piece_len(b.drop_first())] == SLASH);
        }
    }
}

/// `first_piece_len` is pinned down by scanning: the bytes before it are not
/// separators and the byte at it (if any) is one.
proof fn lemma_first_piece_len_char(b: Seq<u8>, n: int)
    requires
        0 <= n <= b.len(),
        forall|k: int| 0 <= k < n ==> b[k] != SLASH,
        n < b.len() ==> b[n] == SLASH,
    ensures
        first_piece_len(b) == n,
    decreases n,
{
    if b.len() == 0 {
    } else if n == 0 {
    } else {
        assert(b[0] != SLASH);
        lemma_first_piece_len_char(b.drop_first(), n - 1);
    }
}

/// The UTF-8 encoding of a single scalar is nonempty, and contains the
/// separator byte exactly when the scalar is the separator character.
proof fn lemma_encode_scalar_slash(c: char)
    ensures
        encode_scalar(c as u32).len() > 0,
        c != '/' ==> !encode_scalar(c as u32).contains(SLASH),
        c == '/' ==> encode_scalar(c as u32) == seq![SLASH],
{
    broadcast use vstd::utf8::char_is_scalar;

    let s = c as u32;
    if has_width_1_encoding(s) {
        assert((s & 0x7F) == s) by (bit_vector)
            requires
                s <= 0x7F,
        ;
        if c == '/' {
            assert(s == 47);
            assert(encode_scalar(s) =~= seq![SLASH]);
        } else {
            assert(s != 47);
            assert(encode_scalar(s)[0] == (s & 0x7F) as u8);
            assert((s & 0x7F) as u8 != 47u8) by (bit_vector)
                requires
                    s <= 0x7F && s != 47,
            ;
            assert(forall|i: int|
                0 <= i < encode_scalar(s).len() ==> encode_scalar(s)[i] != SLASH);
        }
    } else {
        assert(s > 0x7F);
        assert(c != '/');
        assert(forall|y: u8| ((0xC0u8 | y) >= 0x80u8)) by (bit_vector);
        assert(forall|y: u8| ((0xE0u8 | y) >= 0x80u8)) by (bit_vector);
        assert(forall|y: u8| ((0xF0u8 | y) >= 0x80u8)) by (bit_vector);
        assert(forall|y: u8| ((0x80u8 | y) >= 0x80u8)) by (bit_vector);
        assert(forall|i: int| 0 <= i < encode_scalar(s).len() ==> encode_scalar(s)[i] >= 0x80);
    }
}

/// The UTF-8 bytes of a component contain the separator exactly when the
/// component contains the separator character, and are empty exactly when the
/// component is empty.
pub proof fn lemma_encode_component(c: Seq<char>)
    ensures
        encode_utf8(c).len() == 0 <==> c.len() == 0,
        encode_utf8(c).contains(SLASH) <==> c.contains('/'),
    decreases c.len(),
{
    if c.len() == 0 {
        assert(!encode_utf8(c).contains(SLASH));
        assert(!c.contains('/'));
    } else {
        lemma_encode_scalar_slash(c[0]);
        lemma_encode_component(c.drop_first());
        let head = encode_scalar(c[0] as u32);
        let rest = encode_utf8(c.drop_first());
        assert(encode_utf8(c) == head + rest);
        if c.contains('/') {
            let i = choose|i: int| 0 <= i < c.len() && c[i] == '/';
            if i == 0 {
                assert(encode_utf8(c)[0] == SLASH);
                assert(encode_utf8(c).contains(SLASH));
            } else {
                assert(c.drop_first()[i - 1] == '/');
                assert(c.drop_first().contains('/'));
                let j = choose|j: int| 0 <= j < rest.len() && rest[j] == SLASH;
                assert(encode_utf8(c)[head.len() + j] == SLASH);
                assert(encode_utf8(c).contains(SLASH));
            }
        }
        if encode_utf8(c).contains(SLASH) && !c.contains('/') {
            let j = choose|j: int| 0 <= j < encode_utf8(c).len() && encode_utf8(c)[j] == SLASH;
            assert(c[0] != '/');
            if j < head.len() {
                assert(head[j] == SLASH);
                assert(head.contains(SLASH));
                assert(false);
            } else {
                assert(rest[j - head.len()] == SLASH);
                assert(rest.contains(SLASH));
                assert(c.drop_first().contains('/'));
                let i = choose|i: int| 0 <= i < c.drop_first().len() && c.drop_first()[i] == '/';
                assert(c[i + 1] == '/');
                assert(false);
            }
        }
    }
}

/// Splitting undoes joining, for pieces that are nonempty and separator-free.
pub proof fn lemma_split_join(pieces: Seq<Seq<u8>>)
    requires
        pieces.len() > 0,
        forall|i: int|
            0 <= i < pieces.len() ==> (#[trigger] pieces[i]).len() > 0 && !pieces[i].contains(
                SLASH,
            ),
    ensures
        split_path(join_pieces(pieces)) == pieces,
    decreases pieces.len(),
{
    let b = join_pieces(pieces);
    let p0 = pieces[0];
    assert(forall|k: int| 0 <= k < p0.len() ==> p0[k] != SLASH) by {
        assert(forall|k: int| 0 <= k < p0.len() && p0[k] == SLASH ==> p0.contains(SLASH));
    }
    if pieces.len() == 1 {
        assert(b == p0);
        lemma_first_piece_len_char(b, b.len() as int);
        assert(split_path(b) =~= pieces);
    } else {
        let rest = join_pieces(pieces.drop_first());
        assert(b == p0 + seq![SLASH] + rest);
        assert(forall|k: int| 0 <= k < p0.len() ==> b[k] != SLASH);
        assert(b[p0.len() as int] == SLASH);
        lemma_first_piece_len_char(b, p0.len() as int);
        assert(b.take(p0.len() as int) =~= p0);
        assert(b.skip(p0.len() as int + 1) =~= rest);
        lemma_split_join(pieces.drop_first());
        assert(split_path(b) =~= seq![p0] + split_path(rest));
        assert(split_path(b) =~= pieces);
    }
}

/// Decoding undoes encoding: the path region written for a well-formed path
/// reads back as exactly that path.
pub proof fn lemma_decode_joined_path(path: Seq<Seq<char>>)
    requires
        wf_path(path),
    ensures
        spec_decode_path(joined_path(path)) == Some(path),
{
    broadcast use vstd::utf8::encode_utf8_valid_utf8, vstd::utf8::encode_utf8_decode_utf8;

    let pieces = encoded_components(path);
    assert(forall|i: int|
        0 <= i < pieces.len() ==> (#[trigger] pieces[i]).len() > 0 && !pieces[i].contains(
            SLASH,
        )) by {
        assert forall|i: int|
            0 <= i < pieces.len() implies (#[trigger] pieces[i]).len() > 0 && !pieces[i].contains(
            SLASH,
        ) by {
            lemma_encode_component(path[i]);
        }
    }
    lemma_split_join(pieces);
    assert(forall|i: int| 0 <= i < pieces.len() ==> piece_ok(#[trigger] pieces[i]));
    let decoded = Seq::new(pieces.len(), |i: int| decode_utf8(pieces[i]));
    assert(decoded =~= path);
}

/// Every piece produced by splitting is free of the separator byte.
pub proof fn lemma_split_pieces_no_slash(b: Seq<u8>)
    ensures
        forall|i: int|
            0 <= i < split_path(b).len() ==> !(#[trigger] split_path(b)[i]).contains(SLASH),
    decreases b.len(),
{
    lemma_first_piece_len_bounds(b);
    let n = first_piece_len(b);
    if n == b.len() {
        assert(forall|k: int| 0 <= k < b.len() ==> b[k] != SLASH);
        assert(!b.contains(SLASH));
    } else {
        let head = b.take(n);
        assert(forall|k: int| 0 <= k < head.len() ==> head[k] != SLASH);
        assert(!head.contains(SLASH));
        lemma_split_pieces_no_slash(b.skip(n + 1));
        assert(forall|i: int|
            1 <= i < split_path(b).len() ==> split_path(b)[i] == split_path(b.skip(n + 1))[i - 1]);
    }
}

/// Joining one more piece appends a separator and the piece, unless nothing
/// was joined yet.
pub proof fn lemma_join_snoc(pieces: Seq<Seq<u8>>, p: Seq<u8>)
    ensures
        pieces.len() == 0 ==> join_pieces(pieces.push(p)) == p,
        pieces.len() > 0 ==> join_pieces(pieces.push(p)) == join_pieces(pieces) + seq![SLASH] + p,
    decreases pieces.len(),
{
    if pieces.len() == 0 {
        assert(join_pieces(pieces.push(p)) == pieces.push(p)[0]);
    } else if pieces.len() == 1 {
        assert(pieces.push(p).drop_first() =~= seq![p]);
        assert(join_pieces(seq![p]) == p);
        assert(join_pieces(pieces) == pieces[0]);
        assert(join_pieces(pieces.push(p)) == pieces[0] + seq![SLASH] + p);
    } else {
        assert(pieces.push(p).drop_first() =~= pieces.drop_first().push(p));
        lemma_join_snoc(pieces.drop_first(), p);
        assert(join_pieces(pieces.push(p)) == pieces[0] + seq![SLASH] + join_pieces(
            pieces.drop_first().push(p),
        ));
        assert(join_pieces(pieces) + seq![SLASH] + p =~= pieces[0] + seq![SLASH] + (join_pieces(
            pieces.drop_first(),
        ) + seq![SLASH] + p));
    }
}

/// Writes a relative path as its components' UTF-8 bytes joined by '/'.
pub fn join_path(path: &Vec<String>) -> (r: Vec<u8>)
    ensures
        r@ == joined_path(components_view(path@)),
{
    let ghost pieces = encoded_components(components_view(path@));
    let mut out: Vec<u8> = Vec::new();
    let mut i: usize = 0;
    while i < path.len()
        invariant
            0 <= i <= path@.len(),
            pieces == encoded_components(components_view(path@)),
            out@ == join_pieces(pieces.take(i as int)),
        decreases path@.len() - i,
    {
        proof {
            lemma_join_snoc(pieces.take(i as int), pieces[i as int]);
            assert(pieces.take(i as int + 1) =~= pieces.take(i as int).push(pieces[i as int]));
        }
        if i > 0 {
            out.push(SLASH);
        }
        out.extend_from_slice(path[i].as_str().as_bytes());
        proof {
            assert(out@ =~= join_pieces(pieces.take(i as int + 1)));
        }
        i += 1;
    }
    proof {
        assert(pieces.take(path@.len() as int) =~= pieces);
    }
    out
}

/// Relies on `core::str::from_utf8`: it succeeds exactly when the bytes are
/// valid UTF-8, and then yields the characters those bytes encode.
#[verifier::external_body]
fn utf8_region_to_string(bytes: &[u8], start: usize, end: usize) -> (r: Option<String>)
    requires
        start <= end <= bytes@.len(),
    ensures
        r is Some <==> valid_utf8(bytes@.subrange(start as int, end as int)),
        r matches Some(s) ==> s@ == decode_utf8(bytes@.subrange(start as int, end as int)),
{
    match core::str::from_utf8(&bytes[start..end]) {
        Ok(s) => Some(s.to_owned()),
        Err(_) => None,
    }
}

/// Reads the path region `bytes[start..end]` back as a component list:
/// pieces split on '/', each required to be nonempty and valid UTF-8.
pub fn decode_path(bytes: &[u8], start: usize, end: usize) -> (r: Option<Vec<String>>)
    requires
        start <= end <= bytes@.len(),
    ensures
        ({
            let region = bytes@.subrange(start as int, end as int);
            match r {
                Some(path) => spec_decode_path(region) == Some(components_view(path@)),
                None => spec_decode_path(region) is None,
            }
        }),
    decreases end - start,
{
    let ghost region = bytes@.subrange(start as int, end as int);
    let mut j = start;
    while j < end && bytes[j] != SLASH
        invariant
            start <= j <= end <= bytes@.len(),
            forall|k: int| start <= k < j ==> bytes@[k] != SLASH,
        decreases end - j,
    {
        j += 1;
    }
    proof {
        assert(forall|k: int| 0 <= k < region.len() ==> region[k] == bytes@[start + k]);
        lemma_first_piece_len_char(region, j - start);
    }
    let ghost pieces = split_path(region);
    let ghost head = region.take(j - start);
    if j == start {
        proof {
            assert(pieces[0] == head);
            assert(!piece_ok(pieces[0]));
        }
        return None;
    }
    match utf8_region_to_string(bytes, start, j) {
        None => {
            proof {
                assert(pieces[0] == head);
                assert(head =~= bytes@.subrange(start as int, j as int));
                assert(!piece_ok(pieces[0]));
            }
            None
        },
        Some(s) => {
            proof {
                assert(head =~= bytes@.subrange(start as int, j as int));
            }
            if j == end {
                proof {
                    assert(head =~= region);
                    assert(pieces =~= seq![region]);
                }
                let mut path: Vec<String> = Vec::new();
                path.push(s);
                proof {
                    assert(s@ == decode_utf8(region));
                    assert(components_view(path@) =~= seq![s@]);
                    assert(Seq::new(pieces.len(), |i: int| decode_utf8(pieces[i])) =~= seq![s@]);
                    assert(spec_decode_path(region) == Some(components_view(path@)));
                }
                Some(path)
            } else {
                let ghost rest_region = bytes@.subrange(j as int + 1, end as int);
                proof {
                    assert(region.skip((j - start) as int + 1) =~= rest_region);
                    assert(pieces == seq![head] + split_path(rest_region));
                }
                match decode_path(bytes, j + 1, end) {
                    None => {
                        proof {
                            let rp = split_path(rest_region);
                            assert(!(forall|i: int|
                                0 <= i < rp.len() ==> piece_ok(#[trigger] rp[i])));
                            let i = choose|i: int| 0 <= i < rp.len() && !piece_ok(rp[i]);
                            assert(pieces[i + 1] == rp[i]);
                            assert(!piece_ok(pieces[i + 1]));
                        }
                        None
                    },
                    Some(mut path) => {
                        let ghost prev = path@;
                        path.insert(0, s);
                        proof {
                            let rp = split_path(rest_region);
                            assert(forall|i: int|
                                1 <= i < pieces.len() ==> pieces[i] == rp[i - 1]);
                            assert(forall|k: int|
                                0 <= k < rp.len() ==> piece_ok(#[trigger] rp[k])) by {
                                if !(forall|k: int|
                                    0 <= k < rp.len() ==> piece_ok(#[trigger] rp[k])) {
                                    assert(spec_decode_path(rest_region) is None);
                                }
                            }
                            assert(components_view(prev) == Seq::new(
                                rp.len(),
                                |i: int| decode_utf8(rp[i]),
                            ));
                            assert(components_view(prev).len() == prev.len());
                            assert(Seq::new(rp.len(), |i: int| decode_utf8(rp[i])).len()
                                == rp.len());
                            assert(prev.len() == rp.len());
                            assert(path@ =~= seq![s] + prev);
                            assert forall|i: int|
                                0 <= i < pieces.len() implies piece_ok(#[trigger] pieces[i]) by {
                                if i == 0 {
                                    assert(pieces[0] == head);
                                } else {
                                    assert(pieces[i] == rp[i - 1]);
                                }
                            }
                            assert forall|i: int|
                                0 <= i < pieces.len() implies components_view(path@)[i]
                                == decode_utf8(pieces[i]) by {
                                if i == 0 {
                                    assert(path@[0] == s);
                                    assert(pieces[0] == head);
                                } else {
                                    assert(path@[i] == prev[i - 1]);
                                    assert(components_view(prev)[i - 1] == decode_utf8(rp[i - 1]));
                                    assert(pieces[i] == rp[i - 1]);
                                }
                            }
                            assert(components_view(path@) =~= Seq::new(
                                pieces.len(),
                                |i: int| decode_utf8(pieces[i]),
                            ));
                            assert(spec_decode_path(region) == Some(components_view(path@)));
                        }
                        Some(path)
                    },
                }
            }
        },
    }
}

/// A successfully decoded path region is a well-formed path.
pub proof fn lemma_decoded_path_wf(b: Seq<u8>)
    requires
        spec_decode_path(b) is Some,
    ensures
        wf_path(spec_decode_path(b)->Some_0),
{
    broadcast use vstd::utf8::decode_utf8_encode_utf8;

    let pieces = split_path(b);
    let path = spec_decode_path(b)->Some_0;
    lemma_split_pieces_no_slash(b);
    assert forall|i: int| 0 <= i < path.len() implies wf_component(#[trigger] path[i]) by {
        let p = pieces[i];
        assert(piece_ok(p));
        assert(encode_utf8(decode_utf8(p)) == p);
        lemma_encode_component(decode_utf8(p));
        assert(path[i] == decode_utf8(p));
    }
    assert(pieces.len() > 0) by {
        lemma_first_piece_len_bounds(b);
    }
}

} // verus!
