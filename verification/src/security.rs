//! Security utilities for safe file system operations.
//!
//! `validate_path` rejects paths that could escape a base directory or touch
//! hidden files; `check_file_size` holds a file's size to the configured
//! limit.  The checks are lexical, over the path's UTF-8 bytes: the `/`,
//! `\`, `.` and NUL bytes can never occur inside another character's
//! encoding, so byte-level scanning sees exactly the characters it looks
//! for.

use vstd::prelude::*;
use vstd::slice::slice_index_get;
use vstd::string::StringExecFns;
use vstd::string::StringSliceAdditionalSpecFns;
use vstd::utf8::encode_utf8;
use vstd::utf8::encode_utf8_valid_utf8;
use vstd::utf8::is_char_boundary_iff_not_is_continuation_byte;
use vstd::utf8::is_char_boundary_start_end_of_seq;
use crate::fs::DOT;
use crate::fs::SLASH;
use crate::fs::lemma_boundary_after_ascii;
use crate::fs::lemma_encode_ascii_seq;
use crate::fs::lemma_encode_one_ascii;
use crate::fs::lemma_encode_utf8_concat;

verus! {

/// Maximum file size allowed for operations (10MB)
pub const MAX_FILE_SIZE: u64 = 10 * 1024 * 1024;

/// Maximum preview size (1MB)
pub const MAX_PREVIEW_SIZE: u64 = 1024 * 1024;

/// The `\` path separator, as a byte.
pub const BACKSLASH: u8 = 92;

/// The NUL byte.
pub const NUL: u8 = 0;

/// Security-related errors
#[derive(Debug, PartialEq, Eq)]
pub enum SecurityError {
    /// Path contains directory traversal
    PathTraversal,
    /// File too large (the size in bytes)
    FileTooLarge(u64),
    /// Access denied
    AccessDenied,
    /// Invalid path
    InvalidPath,
    /// Path contains null byte
    NullByte,
    /// Path is hidden
    HiddenPath,
    /// Path is absolute
    AbsolutePath,
    /// An I/O error while checking the path
    IoError,
}

/// Whether the byte `x` occurs anywhere in `b`.
pub open spec fn contains_byte(b: Seq<u8>, x: u8) -> bool {
    exists|i: int| 0 <= i < b.len() && b[i] == x
}

/// Whether `..` followed by a separator (either kind) occurs anywhere.
pub open spec fn has_dotdot_sep(b: Seq<u8>) -> bool {
    exists|i: int|
        0 <= i && i + 2 < b.len() && #[trigger] b[i] == DOT && b[i + 1] == DOT && (b[i + 2] == SLASH
            || b[i + 2] == BACKSLASH)
}

/// Whether a path component starts at position `i`: at the front, or right
/// after a `/`.
pub open spec fn starts_component(b: Seq<u8>, i: int) -> bool {
    0 <= i < b.len() && (i == 0 || b[i - 1] == SLASH)
}

/// Whether some component is exactly `..`.
pub open spec fn has_parent_component(b: Seq<u8>) -> bool {
    exists|i: int|
        starts_component(b, i) && i + 1 < b.len() && b[i] == DOT && b[i + 1] == DOT && (i + 2
            == b.len() || b[i + 2] == SLASH)
}

/// Whether some component starts with `.` and is more than the bare `.`
/// (the current-directory component, which is not hidden).
pub open spec fn has_hidden_component(b: Seq<u8>) -> bool {
    exists|i: int|
        starts_component(b, i) && b[i] == DOT && !(i + 1 == b.len() || b[i + 1] == SLASH)
}

/// A base directory and a relative path, joined with one `/`.
pub open spec fn join_bytes(base: Seq<u8>, rel: Seq<u8>) -> Seq<u8> {
    base + seq![SLASH] + rel
}

/// What `validate_path` decides, in order: a NUL byte, an absolute path, a
/// traversal (a `..` before a separator, or a `..` component), then a hidden
/// component each reject the path; otherwise it resolves under the base
/// directory.
pub open spec fn validate_path_spec(path: Seq<u8>, base: Seq<u8>) -> Result<
    Seq<u8>,
    SecurityError,
> {
    if contains_byte(path, NUL) {
        Err(SecurityError::NullByte)
    } else if path.len() > 0 && path[0] == SLASH {
        Err(SecurityError::AbsolutePath)
    } else if has_dotdot_sep(path) || has_parent_component(path) {
        Err(SecurityError::PathTraversal)
    } else if has_hidden_component(path) {
        Err(SecurityError::HiddenPath)
    } else {
        Ok(join_bytes(base, path))
    }
}

/// Whether the byte `x` occurs anywhere in the slice.
fn slice_contains_byte(b: &[u8], x: u8) -> (r: bool)
    ensures
        r == contains_byte(b@, x),
{
    let n = b.len();
    let mut i: usize = 0;
    while i < n
        invariant
            n == b@.len(),
            0 <= i <= n,
            forall|j: int| 0 <= j < i ==> b@[j] != x,
        decreases n - i,
    {
        if *slice_index_get(b, i) == x {
            return true;
        }
        i += 1;
    }
    false
}

/// Whether `..` followed by a separator occurs anywhere in the slice.
fn slice_has_dotdot_sep(b: &[u8]) -> (r: bool)
    ensures
        r == has_dotdot_sep(b@),
{
    let n = b.len();
    if n < 3 {
        return false;
    }
    let mut i: usize = 0;
    while i < n - 2
        invariant
            n == b@.len(),
            n >= 3,
            0 <= i <= n - 2,
            forall|j: int|
                0 <= j < i ==> !(#[trigger] b@[j] == DOT && b@[j + 1] == DOT && (b@[j + 2] == SLASH
                    || b@[j + 2] == BACKSLASH)),
        decreases n - i,
    {
        if *slice_index_get(b, i) == DOT && *slice_index_get(b, i + 1) == DOT && (*slice_index_get(
            b,
            i + 2,
        ) == SLASH || *slice_index_get(b, i + 2) == BACKSLASH) {
            return true;
        }
        i += 1;
    }
    false
}

/// Whether some component of the slice is exactly `..`.
fn slice_has_parent_component(b: &[u8]) -> (r: bool)
    ensures
        r == has_parent_component(b@),
{
    let n = b.len();
    let mut i: usize = 0;
    while i < n
        invariant
            n == b@.len(),
            0 <= i <= n,
            forall|j: int|
                0 <= j < i ==> !(starts_component(b@, j) && j + 1 < b@.len() && b@[j] == DOT && b@[j
                    + 1] == DOT && (j + 2 == b@.len() || b@[j + 2] == SLASH)),
        decreases n - i,
    {
        let at_start = i == 0 || *slice_index_get(b, i - 1) == SLASH;
        if at_start && i + 1 < n && *slice_index_get(b, i) == DOT && *slice_index_get(b, i + 1)
            == DOT && (i + 2 == n || *slice_index_get(b, i + 2) == SLASH) {
            proof {
                assert(starts_component(b@, i as int));
            }
            return true;
        }
        i += 1;
    }
    false
}

/// Whether some component of the slice starts with `.` and is more than the
/// bare `.`.
fn slice_has_hidden_component(b: &[u8]) -> (r: bool)
    ensures
        r == has_hidden_component(b@),
{
    let n = b.len();
    let mut i: usize = 0;
    while i < n
        invariant
            n == b@.len(),
            0 <= i <= n,
            forall|j: int|
                0 <= j < i ==> !(starts_component(b@, j) && b@[j] == DOT && !(j + 1 == b@.len()
                    || b@[j + 1] == SLASH)),
        decreases n - i,
    {
        let at_start = i == 0 || *slice_index_get(b, i - 1) == SLASH;
        if at_start && *slice_index_get(b, i) == DOT && !(i + 1 == n || *slice_index_get(b, i + 1)
            == SLASH) {
            proof {
                assert(starts_component(b@, i as int));
            }
            return true;
        }
        i += 1;
    }
    false
}

/// Whether `resolved` lies under `base`, at the byte level: it is `base`
/// itself, or extends it right at a separator (so `/safe/basement` does not
/// lie under `/safe/base`).
pub open spec fn confined_under(resolved: Seq<u8>, base: Seq<u8>) -> bool {
    ||| resolved == base
    ||| (resolved.len() > base.len() && resolved.subrange(0, base.len() as int) == base && ((
    base.len() > 0 && base.last() == SLASH) || resolved[base.len() as int] == SLASH))
}

/// The confinement step after the caller has canonicalized: whether a
/// resolved path still lies under the canonical base directory.  This is
/// what catches a symlink escape once the lexical checks of
/// [`validate_path`] have passed.
pub fn confirm_under_base(resolved: &str, canonical_base: &str) -> (r: bool)
    ensures
        r == confined_under(resolved.spec_bytes(), canonical_base.spec_bytes()),
{
    let rb = resolved.as_bytes();
    let bb = canonical_base.as_bytes();
    let n = bb.len();
    if rb.len() < n {
        return false;
    }
    let mut i: usize = 0;
    while i < n
        invariant
            rb@ == resolved.spec_bytes(),
            bb@ == canonical_base.spec_bytes(),
            n == bb@.len(),
            n <= rb@.len(),
            0 <= i <= n,
            forall|j: int| 0 <= j < i ==> rb@[j] == bb@[j],
        decreases n - i,
    {
        if *slice_index_get(rb, i) != *slice_index_get(bb, i) {
            proof {
                let rs = resolved.spec_bytes();
                let bs = canonical_base.spec_bytes();
                assert(rs[i as int] != bs[i as int]);
                if rs.len() > bs.len() && rs.subrange(0, bs.len() as int) == bs {
                    assert(rs.subrange(0, bs.len() as int)[i as int] == rs[i as int]);
                }
            }
            return false;
        }
        i += 1;
    }
    proof {
        assert(rb@.subrange(0, n as int) =~= bb@);
    }
    if rb.len() == n {
        proof {
            assert(rb@ =~= bb@);
        }
        return true;
    }
    if n > 0 && *slice_index_get(bb, n - 1) == SLASH {
        return true;
    }
    *slice_index_get(rb, n) == SLASH
}

/// Validates that a path is safe within a base directory: relative, free of
/// NUL bytes and traversal, touching no hidden files.  On success the path
/// joined under the base directory is returned; each rejection names its
/// reason.  The check is lexical; the caller canonicalizes the base before
/// passing it and the result after, and confirms with
/// [`confirm_under_base`] that the resolved path stayed confined — that
/// step, not this one, catches symlink escapes.
pub fn validate_path(path: &str, base_dir: &str) -> (r: Result<String, SecurityError>)
    ensures
        match r {
            Ok(s) => validate_path_spec(path.spec_bytes(), base_dir.spec_bytes()) == Ok::<
                Seq<u8>,
                SecurityError,
            >(encode_utf8(s@)),
            Err(e) => validate_path_spec(path.spec_bytes(), base_dir.spec_bytes()) == Err::<
                Seq<u8>,
                SecurityError,
            >(e),
        },
{
    let b = path.as_bytes();
    if slice_contains_byte(b, NUL) {
        return Err(SecurityError::NullByte);
    }
    if b.len() > 0 && *slice_index_get(b, 0) == SLASH {
        return Err(SecurityError::AbsolutePath);
    }
    if slice_has_dotdot_sep(b) || slice_has_parent_component(b) {
        return Err(SecurityError::PathTraversal);
    }
    if slice_has_hidden_component(b) {
        return Err(SecurityError::HiddenPath);
    }
    let mut s = base_dir.to_owned();
    s.append("/");
    s.append(path);
    proof {
        reveal_strlit("/");
        assert("/"@ =~= seq!['/']);
        crate::fs::lemma_encode_one_ascii('/');
        lemma_encode_utf8_concat(base_dir@ + "/"@, path@);
        lemma_encode_utf8_concat(base_dir@, "/"@);
        assert(encode_utf8(s@) =~= join_bytes(base_dir.spec_bytes(), path.spec_bytes()));
    }
    Ok(s)
}

/// The `:` character, as a byte.
pub const COLON: u8 = 58;

/// The space character, as a byte.
pub const SPACE: u8 = 32;

/// What replacing every match of a pattern in a text with a replacement
/// yields — the text itself where the pattern does not compile.
pub uninterp spec fn regex_replaced(pattern: Seq<char>, text: Seq<char>, rep: Seq<char>) -> Seq<
    char,
>;

/// Relies on `regex::Regex::new` and `Regex::replace_all`: compiling a
/// pattern and replacing its non-overlapping matches, leftmost first, is a
/// function of the three strings alone, and a pattern that does not compile
/// leaves the text as it is.  The two calls stand in one wrapper because the
/// replacement can only be named as a function of the pattern's text, not of
/// the opaque compiled value.
#[verifier::external_body]
fn regex_replace_all(pattern: &str, text: &str, rep: &str) -> (r: String)
    ensures
        r@ == regex_replaced(pattern@, text@, rep@),
{
    match regex::Regex::new(pattern) {
        Ok(re) => re.replace_all(text, rep).into_owned(),
        Err(_) => text.to_string(),
    }
}

/// The sensitive patterns replaced in an error message, in order: file
/// paths, IP addresses, credentials, connection strings, URLs carrying
/// credentials, and environment-variable assignments.
pub open spec fn regex_pass(text: Seq<char>) -> Seq<char> {
    let t1 = regex_replaced("/[a-zA-Z0-9_./\\-]+"@, text, "file"@);
    let t2 = regex_replaced("[A-Za-z]:\\\\[a-zA-Z0-9_\\\\\\.\\-]+"@, t1, "file"@);
    let t3 = regex_replaced("\\b(?:[0-9]{1,3}\\.){3}[0-9]{1,3}\\b"@, t2, "[IP]"@);
    let t4 = regex_replaced("password[=:]\\s*[^\\s]+"@, t3, "password=[REDACTED]"@);
    let t5 = regex_replaced("pwd[=:]\\s*[^\\s]+"@, t4, "pwd=[REDACTED]"@);
    let t6 = regex_replaced("token[=:]\\s*[^\\s]+"@, t5, "token=[REDACTED]"@);
    let t7 = regex_replaced("key[=:]\\s*[^\\s]+"@, t6, "key=[REDACTED]"@);
    let t8 = regex_replaced("postgresql://[^\\s]+"@, t7, "postgresql://[REDACTED]"@);
    let t9 = regex_replaced("mysql://[^\\s]+"@, t8, "mysql://[REDACTED]"@);
    let t10 = regex_replaced("mongodb://[^\\s]+"@, t9, "mongodb://[REDACTED]"@);
    let t11 = regex_replaced("https?://[^@\\s]+@[^\\s]+"@, t10, "https://[REDACTED]"@);
    regex_replaced("[A-Z_]+=[^\\s]+"@, t11, "[ENV_VAR]=[REDACTED]"@)
}

/// ASCII whitespace: what splits an error message into words.
pub open spec fn is_space(b: u8) -> bool {
    b == SPACE || (9 <= b <= 13)
}

/// End of the word starting at `i`: the first whitespace byte at or after
/// it, or the end of the message.
pub open spec fn word_end(b: Seq<u8>, i: int) -> int
    decreases b.len() - i,
{
    if i >= b.len() {
        b.len() as int
    } else if is_space(b[i]) {
        i
    } else {
        word_end(b, i + 1)
    }
}

/// `word_end` points at the first whitespace at or after `i`.
proof fn lemma_word_end_props(b: Seq<u8>, i: int)
    requires
        0 <= i <= b.len(),
    ensures
        i <= word_end(b, i) <= b.len(),
        word_end(b, i) < b.len() ==> is_space(b[word_end(b, i)]),
        forall|j: int| i <= j < word_end(b, i) ==> !is_space(#[trigger] b[j]),
    decreases b.len() - i,
{
    if i < b.len() && !is_space(b[i]) {
        lemma_word_end_props(b, i + 1);
    }
}

/// The replacement for a word that looks like a filesystem path.
pub open spec fn file_word() -> Seq<u8> {
    seq![102u8, 105u8, 108u8, 101u8]
}

/// A word is redacted to `file` when it holds a `/` and more than three
/// bytes, or a `\` beside a `:` and more than three bytes; any other word
/// stands.
pub open spec fn sanitize_word(w: Seq<u8>) -> Seq<u8> {
    if (contains_byte(w, SLASH) && w.len() > 3) || (contains_byte(w, BACKSLASH) && w.len() > 3
        && contains_byte(w, COLON)) {
        file_word()
    } else {
        w
    }
}

/// A word run glued after a previous word: nothing when empty, else one
/// space before it.
pub open spec fn space_glue(rest: Seq<u8>) -> Seq<u8> {
    if rest.len() == 0 {
        rest
    } else {
        seq![SPACE] + rest
    }
}

/// The words of the message from position `i` on, path-like ones redacted,
/// joined by single spaces (runs of whitespace collapse).
pub open spec fn word_sanitize_from(b: Seq<u8>, i: int) -> Seq<u8>
    decreases b.len() - i,
    via word_sanitize_from_decreases
{
    if i < 0 || i >= b.len() {
        Seq::empty()
    } else if is_space(b[i]) {
        word_sanitize_from(b, i + 1)
    } else {
        let e = word_end(b, i);
        sanitize_word(b.subrange(i, e)) + space_glue(word_sanitize_from(b, e))
    }
}

#[via_fn]
proof fn word_sanitize_from_decreases(b: Seq<u8>, i: int) {
    if 0 <= i < b.len() && !is_space(b[i]) {
        lemma_word_end_props(b, i);
    }
}

/// The whole message, path-like words redacted and whitespace collapsed to
/// single spaces.
pub open spec fn word_sanitize(b: Seq<u8>) -> Seq<u8> {
    word_sanitize_from(b, 0)
}

/// What `sanitize_error_message` produces: the sensitive patterns replaced,
/// then the conservative word-level redaction of anything path-like that
/// remains.
pub open spec fn sanitize_spec(error: Seq<char>) -> Seq<u8> {
    word_sanitize(encode_utf8(regex_pass(error)))
}

/// Whether a byte is ASCII whitespace.
fn is_space_byte(b: u8) -> (r: bool)
    ensures
        r == is_space(b),
{
    b == SPACE || (b >= 9 && b <= 13)
}

/// End of the word starting at `i`, as `word_end` says.
fn word_end_pos(b: &[u8], i: usize) -> (e: usize)
    requires
        i <= b@.len(),
    ensures
        e as int == word_end(b@, i as int),
        i <= e <= b@.len(),
{
    let n = b.len();
    let mut j = i;
    while j < n
        invariant
            i <= j <= n,
            n == b@.len(),
            word_end(b@, i as int) == word_end(b@, j as int),
        decreases n - j,
    {
        if is_space_byte(*slice_index_get(b, j)) {
            return j;
        }
        j += 1;
    }
    proof {
        lemma_word_end_props(b@, i as int);
    }
    n
}

/// Whether the byte `x` occurs in `b[from..to]`.
fn range_contains_byte(b: &[u8], from: usize, to: usize, x: u8) -> (r: bool)
    requires
        from <= to <= b@.len(),
    ensures
        r == contains_byte(b@.subrange(from as int, to as int), x),
{
    let ghost sub = b@.subrange(from as int, to as int);
    let mut j = from;
    while j < to
        invariant
            from <= j <= to,
            to <= b@.len(),
            sub == b@.subrange(from as int, to as int),
            forall|m: int| from <= m < j ==> b@[m] != x,
        decreases to - j,
    {
        if *slice_index_get(b, j) == x {
            proof {
                assert(sub[j - from] == x);
            }
            return true;
        }
        j += 1;
    }
    proof {
        assert forall|m: int| 0 <= m < sub.len() implies sub[m] != x by {
            assert(sub[m] == b@[from + m]);
        }
    }
    false
}

/// Redact every path-like word of a message: words holding a separator (and
/// long enough to look like a path) become `file`; whitespace runs collapse
/// to single spaces.  This is the conservative second pass of
/// [`sanitize_error_message`], on its own for text that went through no
/// pattern replacement.
pub fn redact_path_words(s: &str) -> (r: String)
    ensures
        encode_utf8(r@) == word_sanitize(s.spec_bytes()),
{
    let b = s.as_bytes();
    let n = b.len();
    let mut out = String::new();
    let mut emitted = false;
    let mut i: usize = 0;
    proof {
        encode_utf8_valid_utf8(s@);
    }
    while i < n
        invariant
            b@ == s.spec_bytes(),
            n == b@.len(),
            0 <= i <= n,
            vstd::utf8::valid_utf8(s.spec_bytes()),
            vstd::utf8::is_char_boundary(s.spec_bytes(), i as int),
            emitted ==> word_sanitize(s.spec_bytes()) == encode_utf8(out@) + space_glue(
                word_sanitize_from(b@, i as int),
            ),
            !emitted ==> out@ == Seq::<char>::empty() && word_sanitize(s.spec_bytes())
                == word_sanitize_from(b@, i as int),
        decreases n - i,
    {
        if is_space_byte(*slice_index_get(b, i)) {
            proof {
                lemma_boundary_after_ascii(s.spec_bytes(), i as int);
            }
            i += 1;
        } else {
            let e = word_end_pos(b, i);
            proof {
                lemma_word_end_props(b@, i as int);
            }
            let ghost sub = b@.subrange(i as int, e as int);
            let ghost out0 = out@;
            if emitted {
                out.append(" ");
            }
            let ghost out1 = out@;
            let pathy = (range_contains_byte(b, i, e, SLASH) && e - i > 3) || (range_contains_byte(
                b,
                i,
                e,
                BACKSLASH,
            ) && e - i > 3 && range_contains_byte(b, i, e, COLON));
            if pathy {
                out.append("file");
                proof {
                    reveal_strlit("file");
                    assert("file"@ =~= seq!['f', 'i', 'l', 'e']);
                    lemma_encode_ascii_seq("file"@);
                    assert(encode_utf8("file"@) =~= file_word());
                    lemma_encode_utf8_concat(out1, "file"@);
                }
            } else {
                let (_, tail) = s.split_at(i);
                proof {
                    encode_utf8_valid_utf8(tail@);
                    if e < n {
                        is_char_boundary_iff_not_is_continuation_byte(
                            tail.spec_bytes(),
                            e - i as int,
                        );
                        assert(tail.spec_bytes()[e - i as int] == b@[e as int]);
                    } else {
                        is_char_boundary_start_end_of_seq(tail.spec_bytes());
                        assert(e - i as int == tail.spec_bytes().len());
                    }
                }
                let (w, _) = tail.split_at(e - i);
                proof {
                    assert(w.spec_bytes() =~= sub);
                    lemma_encode_utf8_concat(out1, w@);
                }
                out.append(w);
            }
            proof {
                assert(sanitize_word(sub).len() > 0);
                if emitted {
                    reveal_strlit(" ");
                    assert(" "@ =~= seq![' ']);
                    lemma_encode_one_ascii(' ');
                    lemma_encode_utf8_concat(out0, " "@);
                    assert(encode_utf8(out@) =~= encode_utf8(out0) + seq![SPACE] + sanitize_word(
                        sub,
                    ));
                    assert(space_glue(word_sanitize_from(b@, i as int)) =~= seq![SPACE]
                        + (sanitize_word(sub) + space_glue(word_sanitize_from(b@, e as int))));
                    assert(word_sanitize(s.spec_bytes()) =~= encode_utf8(out@) + space_glue(
                        word_sanitize_from(b@, e as int),
                    ));
                } else {
                    assert(encode_utf8(out0) =~= Seq::<u8>::empty());
                    assert(encode_utf8(out@) =~= sanitize_word(sub));
                    assert(word_sanitize(s.spec_bytes()) =~= encode_utf8(out@) + space_glue(
                        word_sanitize_from(b@, e as int),
                    ));
                }
                if e < n {
                    is_char_boundary_iff_not_is_continuation_byte(s.spec_bytes(), e as int);
                } else {
                    is_char_boundary_start_end_of_seq(s.spec_bytes());
                }
            }
            emitted = true;
            i = e;
        }
    }
    proof {
        if emitted {
            assert(encode_utf8(out@) + space_glue(word_sanitize_from(b@, n as int)) =~= encode_utf8(
                out@,
            ));
        } else {
            assert(encode_utf8(out@) =~= Seq::<u8>::empty());
        }
    }
    out
}

/// Sanitizes an error message before it is shown: sensitive patterns
/// (paths, IP addresses, credentials, connection strings, URLs with
/// credentials, environment assignments) are replaced, then any remaining
/// path-like word is conservatively redacted to `file`.  The second
/// argument, the path the error arose on, plays no part in the result.
pub fn sanitize_error_message(error: &str, _path: &str) -> (r: String)
    ensures
        encode_utf8(r@) == sanitize_spec(error@),
{
    let t1 = regex_replace_all("/[a-zA-Z0-9_./\\-]+", error, "file");
    let t2 = regex_replace_all("[A-Za-z]:\\\\[a-zA-Z0-9_\\\\\\.\\-]+", t1.as_str(), "file");
    let t3 = regex_replace_all("\\b(?:[0-9]{1,3}\\.){3}[0-9]{1,3}\\b", t2.as_str(), "[IP]");
    let t4 = regex_replace_all("password[=:]\\s*[^\\s]+", t3.as_str(), "password=[REDACTED]");
    let t5 = regex_replace_all("pwd[=:]\\s*[^\\s]+", t4.as_str(), "pwd=[REDACTED]");
    let t6 = regex_replace_all("token[=:]\\s*[^\\s]+", t5.as_str(), "token=[REDACTED]");
    let t7 = regex_replace_all("key[=:]\\s*[^\\s]+", t6.as_str(), "key=[REDACTED]");
    let t8 = regex_replace_all("postgresql://[^\\s]+", t7.as_str(), "postgresql://[REDACTED]");
    let t9 = regex_replace_all("mysql://[^\\s]+", t8.as_str(), "mysql://[REDACTED]");
    let t10 = regex_replace_all("mongodb://[^\\s]+", t9.as_str(), "mongodb://[REDACTED]");
    let t11 = regex_replace_all("https?://[^@\\s]+@[^\\s]+", t10.as_str(), "https://[REDACTED]");
    let t12 = regex_replace_all("[A-Z_]+=[^\\s]+", t11.as_str(), "[ENV_VAR]=[REDACTED]");
    redact_path_words(t12.as_str())
}

/// Checks a file's size, as read by the caller from its metadata, against
/// the limit: the size itself when within it, the error naming the size
/// when over it.
pub fn check_file_size(size: u64) -> (r: Result<u64, SecurityError>)
    ensures
        r == if size > MAX_FILE_SIZE {
            Err::<u64, SecurityError>(SecurityError::FileTooLarge(size))
        } else {
            Ok::<u64, SecurityError>(size)
        },
{
    if size > MAX_FILE_SIZE {
        Err(SecurityError::FileTooLarge(size))
    } else {
        Ok(size)
    }
}

} // verus!
