//! Filesystem path helpers, at the level of a path's UTF-8 bytes.
//!
//! Paths are handled as strings; the specs speak of their UTF-8 bytes, where
//! the `/` separator is a single byte that can never occur inside another
//! character's encoding.

use vstd::prelude::*;
use vstd::slice::slice_index_get;
use vstd::string::StringExecFns;
use vstd::string::StringSliceAdditionalSpecFns;
use vstd::utf8::encode_scalar;
use vstd::utf8::encode_utf8;
use vstd::utf8::encode_utf8_valid_utf8;
use vstd::utf8::is_char_boundary_iff_not_is_continuation_byte;

verus! {

/// The `/` path separator, as a byte.
pub const SLASH: u8 = 47;

/// The `.` character, as a byte.
pub const DOT: u8 = 46;

/// Position of the last `/` in a path's bytes, if any.
pub open spec fn last_slash(k: Seq<u8>) -> Option<int>
    decreases k.len(),
{
    if k.len() == 0 {
        None
    } else if k.last() == SLASH {
        Some(k.len() - 1)
    } else {
        last_slash(k.drop_last())
    }
}

/// A path with its trailing `/` separators removed; the root's single `/`
/// stays.
pub open spec fn strip_trailing_slashes(k: Seq<u8>) -> Seq<u8>
    decreases k.len(),
{
    if k.len() > 1 && k.last() == SLASH {
        strip_trailing_slashes(k.drop_last())
    } else {
        k
    }
}

/// The parent directory of a path, at the byte level: trailing separators
/// ignored, everything before the last `/` (the root's child has the root
/// `/` as parent; a bare name has the empty parent; the root and the empty
/// path have none).
pub open spec fn parent_key(k: Seq<u8>) -> Option<Seq<u8>> {
    let q = strip_trailing_slashes(k);
    if q.len() == 0 {
        None
    } else {
        match last_slash(q) {
            None => Some(Seq::empty()),
            Some(i) => if i == 0 {
                if q.len() == 1 {
                    None
                } else {
                    Some(q.subrange(0, 1))
                }
            } else {
                Some(q.subrange(0, i))
            },
        }
    }
}

/// Where a link found in a file resolves to: an absolute link stands as it
/// is; a relative one is joined onto the directory of the file it was found
/// in (with `.` standing in when that file has no parent).
pub open spec fn resolve_link_bytes(cur: Seq<u8>, link: Seq<u8>) -> Seq<u8> {
    if link.len() > 0 && link[0] == SLASH {
        link
    } else {
        let base: Seq<u8> = match parent_key(cur) {
            Some(p) => p,
            None => seq![DOT],
        };
        if base.len() == 0 {
            link
        } else if base.last() == SLASH {
            base + link
        } else {
            base + seq![SLASH] + link
        }
    }
}

/// Position of the last `/` in a byte slice, if any.
pub(crate) fn last_slash_pos(k: &[u8]) -> (r: Option<usize>)
    ensures
        match r {
            Some(i) => last_slash(k@) == Some(i as int) && i < k@.len(),
            None => last_slash(k@) is None,
        },
{
    let mut i: usize = k.len();
    proof {
        assert(k@.subrange(0, i as int) =~= k@);
    }
    while i > 0
        invariant
            0 <= i <= k@.len(),
            last_slash(k@) == last_slash(k@.subrange(0, i as int)),
        decreases i,
    {
        if *slice_index_get(k, i - 1) == SLASH {
            proof {
                assert(k@.subrange(0, i as int).last() == k@[i - 1]);
            }
            return Some(i - 1);
        }
        proof {
            assert(k@.subrange(0, i as int).drop_last() =~= k@.subrange(0, i - 1));
        }
        i -= 1;
    }
    proof {
        assert(k@.subrange(0, 0) =~= Seq::<u8>::empty());
    }
    None
}

/// `last_slash` points at a `/`.
pub proof fn lemma_last_slash_props(k: Seq<u8>)
    ensures
        last_slash(k) matches Some(i) ==> 0 <= i < k.len() && k[i] == SLASH,
    decreases k.len(),
{
    if k.len() > 0 && k.last() != SLASH {
        lemma_last_slash_props(k.drop_last());
    }
}

/// A byte below 0x80 in a string's UTF-8 bytes always falls on a character
/// boundary: multi-byte encodings use bytes of 0x80 and above throughout
/// their tails.
proof fn lemma_ascii_byte_is_boundary(s: &str, i: int)
    requires
        0 <= i < s.spec_bytes().len(),
        s.spec_bytes()[i] < 0x80,
    ensures
        vstd::utf8::is_char_boundary(s.spec_bytes(), i),
{
    encode_utf8_valid_utf8(s@);
    is_char_boundary_iff_not_is_continuation_byte(s.spec_bytes(), i);
}

/// A character below 0x80 encodes as its own single byte.
proof fn lemma_ascii_encode(c: char)
    requires
        (c as u32) < 0x80,
    ensures
        encode_scalar(c as u32) == seq![c as u8],
{
    let v = c as u32;
    assert((v & 0x7F) as u8 == v as u8) by (bit_vector)
        requires
            (v as u32) < 0x80,
    ;
}

/// The byte after an ASCII byte in valid UTF-8 falls on a character
/// boundary: continuation bytes only stand inside a multi-byte encoding,
/// never after a complete single-byte character.
pub proof fn lemma_boundary_after_ascii(bytes: Seq<u8>, i: int)
    requires
        vstd::utf8::valid_utf8(bytes),
        0 <= i < bytes.len(),
        bytes[i] < 0x80,
    ensures
        vstd::utf8::is_char_boundary(bytes, i + 1),
    decreases bytes.len(),
{
    let l = vstd::utf8::length_of_first_scalar(bytes);
    let pop = vstd::utf8::pop_first_scalar(bytes);
    if i == 0 {
        assert(l == 1);
        assert(vstd::utf8::is_char_boundary(pop, 0));
    } else {
        is_char_boundary_iff_not_is_continuation_byte(bytes, i);
        assert(vstd::utf8::is_char_boundary(pop, i - l));
        assert(i - l >= 0);
        assert(pop[i - l] == bytes[i]);
        lemma_boundary_after_ascii(pop, i - l);
    }
}

/// A sequence of characters below 0x80 encodes byte-for-byte.
pub proof fn lemma_encode_ascii_seq(cs: Seq<char>)
    requires
        forall|i: int| 0 <= i < cs.len() ==> ((#[trigger] cs[i]) as u32) < 0x80,
    ensures
        encode_utf8(cs) == cs.map_values(|c: char| c as u8),
    decreases cs.len(),
{
    if cs.len() == 0 {
        assert(encode_utf8(cs) =~= cs.map_values(|c: char| c as u8));
    } else {
        lemma_ascii_encode(cs[0]);
        lemma_encode_ascii_seq(cs.drop_first());
        assert(cs.drop_first().map_values(|c: char| c as u8) =~= cs.map_values(
            |c: char| c as u8,
        ).drop_first());
        assert(encode_utf8(cs) =~= cs.map_values(|c: char| c as u8));
    }
}

/// A character below 0x80, as a one-character sequence, encodes as one byte.
pub proof fn lemma_encode_one_ascii(c: char)
    requires
        (c as u32) < 0x80,
    ensures
        encode_utf8(seq![c]) == seq![c as u8],
{
    lemma_ascii_encode(c);
    assert(seq![c].drop_first() =~= Seq::<char>::empty());
    assert(encode_utf8(seq![c]) =~= encode_scalar(c as u32) + encode_utf8(Seq::<char>::empty()));
    assert(encode_scalar(c as u32) + Seq::<u8>::empty() =~= encode_scalar(c as u32));
}

/// UTF-8 encoding distributes over concatenation.
pub proof fn lemma_encode_utf8_concat(a: Seq<char>, b: Seq<char>)
    ensures
        encode_utf8(a + b) == encode_utf8(a) + encode_utf8(b),
    decreases a.len(),
{
    if a.len() == 0 {
        assert(a + b =~= b);
        assert(encode_utf8(a) + encode_utf8(b) =~= encode_utf8(b));
    } else {
        assert((a + b).drop_first() =~= a.drop_first() + b);
        lemma_encode_utf8_concat(a.drop_first(), b);
        assert(encode_scalar((a + b)[0] as u32) + (encode_utf8(a.drop_first()) + encode_utf8(b))
            =~= (encode_scalar(a[0] as u32) + encode_utf8(a.drop_first())) + encode_utf8(b));
    }
}

/// The parent directory of a path, as a borrow of it: the exec twin of
/// [`parent_key`].  Trailing `/` separators are ignored, as `parent_key`
/// says.
pub fn parent_of_str<'a>(s: &'a str) -> (r: Option<&'a str>)
    ensures
        match r {
            Some(p) => parent_key(s.spec_bytes()) == Some(p.spec_bytes()),
            None => parent_key(s.spec_bytes()) is None,
        },
{
    let b = s.as_bytes();
    let mut n: usize = b.len();
    proof {
        assert(b@.subrange(0, n as int) =~= b@);
    }
    while n > 1 && *slice_index_get(b, n - 1) == SLASH
        invariant
            0 <= n <= b@.len(),
            strip_trailing_slashes(b@) == strip_trailing_slashes(b@.subrange(0, n as int)),
            forall|j: int| n <= j < b@.len() ==> b@[j] == SLASH,
        decreases n,
    {
        proof {
            assert(b@.subrange(0, n as int).drop_last() =~= b@.subrange(0, n - 1));
        }
        n -= 1;
    }
    proof {
        assert(strip_trailing_slashes(b@) =~= b@.subrange(0, n as int));
    }
    if n == 0 {
        return None;
    }
    proof {
        encode_utf8_valid_utf8(s@);
        if n < b.len() {
            lemma_ascii_byte_is_boundary(s, n as int);
        } else {
            vstd::utf8::is_char_boundary_start_end_of_seq(s.spec_bytes());
        }
    }
    let (q, _) = s.split_at(n);
    match last_slash_pos(q.as_bytes()) {
        None => {
            proof {
                encode_utf8_valid_utf8(q@);
            }
            let (p, _) = q.split_at(0);
            proof {
                assert(p.spec_bytes() =~= Seq::<u8>::empty());
            }
            Some(p)
        },
        Some(i) => {
            if i == 0 {
                if n == 1 {
                    None
                } else {
                    let p = "/";
                    proof {
                        reveal_strlit("/");
                        assert("/"@ =~= seq!['/']);
                        lemma_encode_one_ascii('/');
                        lemma_last_slash_props(q.spec_bytes());
                        assert(q.spec_bytes().subrange(0, 1) =~= seq![SLASH]);
                        assert(p.spec_bytes() == seq![SLASH]);
                    }
                    Some(p)
                }
            } else {
                proof {
                    lemma_last_slash_props(q.spec_bytes());
                    lemma_ascii_byte_is_boundary(q, i as int);
                }
                let (p, _) = q.split_at(i);
                proof {
                    assert(p.spec_bytes() =~= q.spec_bytes().subrange(0, i as int));
                }
                Some(p)
            }
        },
    }
}

/// Resolve a link found in a file: an absolute link stands as it is; a
/// relative one is joined onto the directory of `current_file`.
pub fn resolve_link(current_file: &str, link: &str) -> (r: String)
    ensures
        encode_utf8(r@) == resolve_link_bytes(current_file.spec_bytes(), link.spec_bytes()),
{
    let lb = link.as_bytes();
    if lb.len() > 0 && *slice_index_get(lb, 0) == SLASH {
        return link.to_owned();
    }
    match parent_of_str(current_file) {
        None => {
            let mut r = String::from_str("./");
            r.append(link);
            proof {
                reveal_strlit("./");
                assert("./"@ =~= seq!['.'] + seq!['/']);
                lemma_encode_one_ascii('.');
                lemma_encode_one_ascii('/');
                lemma_encode_utf8_concat(seq!['.'], seq!['/']);
                lemma_encode_utf8_concat("./"@, link@);
                assert(encode_utf8(r@) =~= seq![DOT] + seq![SLASH] + link.spec_bytes());
            }
            r
        },
        Some(p) => {
            if p.is_empty() {
                proof {
                    assert(p.spec_bytes().len() == 0);
                }
                link.to_owned()
            } else {
                let pb = p.as_bytes();
                let ends_in_slash = *slice_index_get(pb, pb.len() - 1) == SLASH;
                let mut r = p.to_owned();
                if !ends_in_slash {
                    r.append("/");
                }
                r.append(link);
                proof {
                    reveal_strlit("/");
                    assert("/"@ =~= seq!['/']);
                    lemma_encode_one_ascii('/');
                    if ends_in_slash {
                        lemma_encode_utf8_concat(p@, link@);
                    } else {
                        lemma_encode_utf8_concat(p@ + "/"@, link@);
                        lemma_encode_utf8_concat(p@, "/"@);
                    }
                }
                r
            }
        },
    }
}

} // verus!
