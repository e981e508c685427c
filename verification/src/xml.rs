//! The lexical layer of XML: where each piece of markup or text ends.
//!
//! A document is cut into tokens that lie end to end: text up to the next
//! `<`, a start tag, an end tag, an empty-element tag, or another piece of
//! markup (comment, CDATA section, processing instruction, declaration).
//! Nothing is interpreted or normalized; a token is a range of the source.

use vstd::prelude::*;
use crate::bytes::{has_at, lit, starts_at};

verus! {

/// `<`
pub const LT: u8 = 60;

/// `>`
pub const GT: u8 = 62;

/// `/`
pub const SLASH: u8 = 47;

/// `!`
pub const BANG: u8 = 33;

/// `?`
pub const QUERY: u8 = 63;

/// `"`
pub const QUOTE: u8 = 34;

/// `'`
pub const APOS: u8 = 39;

/// `=`
pub const EQUALS: u8 = 61;

/// What a token is.
#[derive(Clone, Copy, Debug, PartialEq, Eq, Structural)]
pub enum NodeKind {
    /// A start tag, `<name ...>`.
    Open,
    /// An end tag, `</name>`.
    Close,
    /// An empty-element tag, `<name .../>`.
    Empty,
    /// Character data between markup.
    Text,
    /// A comment, CDATA section, processing instruction or declaration.
    Other,
}

/// Blank, tab, line feed or carriage return.
pub open spec fn is_space(b: u8) -> bool {
    b == 32 || b == 9 || b == 10 || b == 13
}

/// A byte that cannot be part of a name.
pub open spec fn ends_name(b: u8) -> bool {
    is_space(b) || b == GT || b == SLASH || b == LT || b == EQUALS
}

/// The first position at or after `i` that holds `b`, or the length.
pub open spec fn next_byte(src: Seq<u8>, i: int, b: u8) -> int
    decreases src.len() - i,
{
    if 0 <= i < src.len() && src[i] != b {
        next_byte(src, i + 1, b)
    } else {
        i
    }
}

/// The first position at or after `i` where `pat` stands, or the length.
pub open spec fn next_match(src: Seq<u8>, i: int, pat: Seq<u8>) -> int
    decreases src.len() - i,
{
    if 0 <= i < src.len() && !has_at(src, i, pat) {
        next_match(src, i + 1, pat)
    } else {
        i
    }
}

/// The first position at or after `i` that ends a name, or the length.
pub open spec fn name_end(src: Seq<u8>, i: int) -> int
    decreases src.len() - i,
{
    if 0 <= i < src.len() && !ends_name(src[i]) {
        name_end(src, i + 1)
    } else {
        i
    }
}

/// The first position at or after `i` that holds no white space, or the
/// length.
pub open spec fn next_non_space(src: Seq<u8>, i: int) -> int
    decreases src.len() - i,
{
    if 0 <= i < src.len() && is_space(src[i]) {
        next_non_space(src, i + 1)
    } else {
        i
    }
}

/// The position behind the `>` that closes a tag, reading on from `i` with
/// `quote` as the quotation mark that is open there (0 for none). A `>`
/// inside a quoted value does not close the tag; a `<` outside one, or the
/// end of the source, means the tag is never closed.
pub open spec fn tag_close(src: Seq<u8>, i: int, quote: u8) -> Option<int>
    decreases src.len() - i,
{
    if !(0 <= i < src.len()) {
        None
    } else if quote != 0 {
        tag_close(src, i + 1, if src[i] == quote { 0u8 } else { quote })
    } else if src[i] == GT {
        Some(i + 1)
    } else if src[i] == LT {
        None
    } else if src[i] == QUOTE || src[i] == APOS {
        tag_close(src, i + 1, src[i])
    } else {
        tag_close(src, i + 1, 0)
    }
}

/// Markup that starts at `p` and runs to the first `close` at or after
/// `from`.
pub open spec fn delimited(src: Seq<u8>, p: int, from: int, close: Seq<u8>) -> Option<
    (NodeKind, int, int),
> {
    let e = next_match(src, from, close);
    if has_at(src, e, close) {
        Some((NodeKind::Other, e + close.len(), p))
    } else {
        None
    }
}

/// The token that starts at `p`: its kind, where it ends, and where its
/// name ends (`p` itself for a token without a name). `None` where no
/// token can start: at the end of the source, or at markup that is never
/// closed or has no name.
pub open spec fn token_at(src: Seq<u8>, p: int) -> Option<(NodeKind, int, int)> {
    let q = p + 1;
    if !(0 <= p < src.len()) {
        None
    } else if src[p] != LT {
        Some((NodeKind::Text, next_byte(src, p, LT), p))
    } else if q < src.len() && src[q] == BANG {
        if has_at(src, q, lit("!--")) {
            delimited(src, p, q + lit("!--").len(), lit("-->"))
        } else if has_at(src, q, lit("![CDATA[")) {
            delimited(src, p, q + lit("![CDATA[").len(), lit("]]>"))
        } else {
            match tag_close(src, q, 0) {
                Some(e) => Some((NodeKind::Other, e, p)),
                None => None,
            }
        }
    } else if q < src.len() && src[q] == QUERY {
        delimited(src, p, q + 1, lit("?>"))
    } else if q < src.len() && src[q] == SLASH {
        let ne = name_end(src, q + 1);
        let e = next_non_space(src, ne);
        if ne > q + 1 && e < src.len() && src[e] == GT {
            Some((NodeKind::Close, e + 1, ne))
        } else {
            None
        }
    } else {
        let ne = name_end(src, q);
        if ne == q {
            None
        } else {
            match tag_close(src, ne, 0) {
                Some(e) => Some(
                    (if src[e - 2] == SLASH { NodeKind::Empty } else { NodeKind::Open }, e, ne),
                ),
                None => None,
            }
        }
    }
}

/// The first position at or after `from` that holds `b`.
pub fn scan_byte(src: &[u8], from: usize, b: u8) -> (at: usize)
    requires
        from <= src@.len(),
    ensures
        at == next_byte(src@, from as int, b),
        from <= at <= src@.len(),
        at < src@.len() ==> src@[at as int] == b,
        from < src@.len() && src@[from as int] != b ==> from < at,
{
    let mut i: usize = from;
    while i < src.len() && src[i] != b
        invariant
            from <= i <= src@.len(),
            next_byte(src@, from as int, b) == next_byte(src@, i as int, b),
        decreases src@.len() - i,
    {
        i += 1;
    }
    i
}

/// The first position at or after `from` where `pat` stands.
pub fn scan_match(src: &[u8], from: usize, pat: &[u8]) -> (at: usize)
    requires
        from <= src@.len(),
    ensures
        at == next_match(src@, from as int, pat@),
        from <= at <= src@.len(),
{
    let mut i: usize = from;
    while i < src.len() && !starts_at(src, i, pat)
        invariant
            from <= i <= src@.len(),
            next_match(src@, from as int, pat@) == next_match(src@, i as int, pat@),
        decreases src@.len() - i,
    {
        i += 1;
    }
    i
}

/// Whether `b` cannot be part of a name.
pub fn is_name_end(b: u8) -> (stop: bool)
    ensures
        stop == ends_name(b),
{
    b == 32 || b == 9 || b == 10 || b == 13 || b == GT || b == SLASH || b == LT || b == EQUALS
}

/// The first position at or after `from` that ends a name.
pub fn scan_name(src: &[u8], from: usize) -> (at: usize)
    requires
        from <= src@.len(),
    ensures
        at == name_end(src@, from as int),
        from <= at <= src@.len(),
        forall|j: int| from <= j < at ==> !ends_name(#[trigger] src@[j]),
        at < src@.len() ==> ends_name(src@[at as int]),
{
    let mut i: usize = from;
    while i < src.len() && !is_name_end(src[i])
        invariant
            from <= i <= src@.len(),
            name_end(src@, from as int) == name_end(src@, i as int),
            forall|j: int| from <= j < i ==> !ends_name(#[trigger] src@[j]),
        decreases src@.len() - i,
    {
        i += 1;
    }
    i
}

/// The first position at or after `from` that holds no white space.
pub fn scan_space(src: &[u8], from: usize) -> (at: usize)
    requires
        from <= src@.len(),
    ensures
        at == next_non_space(src@, from as int),
        from <= at <= src@.len(),
        forall|j: int| from <= j < at ==> is_space(#[trigger] src@[j]),
        at < src@.len() ==> !is_space(src@[at as int]),
{
    let mut i: usize = from;
    while i < src.len() && (src[i] == 32 || src[i] == 9 || src[i] == 10 || src[i] == 13)
        invariant
            from <= i <= src@.len(),
            next_non_space(src@, from as int) == next_non_space(src@, i as int),
            forall|j: int| from <= j < i ==> is_space(#[trigger] src@[j]),
        decreases src@.len() - i,
    {
        i += 1;
    }
    i
}

/// The position behind the `>` that closes the tag read on from `from`.
pub fn scan_tag(src: &[u8], from: usize) -> (end: Option<usize>)
    requires
        from <= src@.len(),
    ensures
        match end {
            Some(e) => tag_close(src@, from as int, 0) == Some(e as int) && from < e
                <= src@.len() && src@[e - 1] == GT,
            None => tag_close(src@, from as int, 0) is None,
        },
{
    let mut i: usize = from;
    let mut quote: u8 = 0;
    while i < src.len()
        invariant
            from <= i <= src@.len(),
            tag_close(src@, from as int, 0) == tag_close(src@, i as int, quote),
        decreases src@.len() - i,
    {
        let b: u8 = src[i];
        if quote != 0 {
            if b == quote {
                quote = 0;
            }
        } else if b == GT {
            return Some(i + 1);
        } else if b == LT {
            return None;
        } else if b == QUOTE || b == APOS {
            quote = b;
        }
        i += 1;
    }
    None
}

/// Reads markup that runs to the first `close` at or after `from`.
fn scan_delimited(src: &[u8], p: usize, from: usize, close: &str) -> (token: Option<
    (NodeKind, usize, usize),
>)
    requires
        p < from <= src@.len(),
    ensures
        match token {
            Some((kind, end, ne)) => delimited(src@, p as int, from as int, lit(close)) == Some(
                (kind, end as int, ne as int),
            ) && p < end <= src@.len(),
            None => delimited(src@, p as int, from as int, lit(close)) is None,
        },
{
    let n: usize = src.len();
    let pat = close.as_bytes();
    let e = scan_match(src, from, pat);
    if starts_at(src, e, pat) {
        Some((NodeKind::Other, e + pat.len(), p))
    } else {
        None
    }
}

/// Reads the token that starts at `p`.
pub fn next_token(src: &[u8], p: usize) -> (token: Option<(NodeKind, usize, usize)>)
    requires
        p < src@.len(),
    ensures
        match token {
            Some((kind, end, ne)) => {
                &&& token_at(src@, p as int) == Some((kind, end as int, ne as int))
                &&& p < end <= src@.len()
                &&& p <= ne <= end
                &&& kind == NodeKind::Close ==> p + 2 < ne
                &&& kind == NodeKind::Open || kind == NodeKind::Empty ==> p + 1 < ne
            },
            None => token_at(src@, p as int) is None,
        },
{
    let n: usize = src.len();
    let q: usize = p + 1;
    if src[p] != LT {
        let end = scan_byte(src, p, LT);
        return Some((NodeKind::Text, end, p));
    }
    if q < src.len() && src[q] == BANG {
        let comment = "!--".as_bytes();
        let cdata = "![CDATA[".as_bytes();
        if starts_at(src, q, comment) {
            scan_delimited(src, p, q + comment.len(), "-->")
        } else if starts_at(src, q, cdata) {
            scan_delimited(src, p, q + cdata.len(), "]]>")
        } else {
            match scan_tag(src, q) {
                Some(e) => Some((NodeKind::Other, e, p)),
                None => None,
            }
        }
    } else if q < src.len() && src[q] == QUERY {
        scan_delimited(src, p, q + 1, "?>")
    } else if q < src.len() && src[q] == SLASH {
        let ne = scan_name(src, q + 1);
        let e = scan_space(src, ne);
        if ne > q + 1 && e < src.len() && src[e] == GT {
            Some((NodeKind::Close, e + 1, ne))
        } else {
            None
        }
    } else {
        let ne = scan_name(src, q);
        if ne == q {
            None
        } else {
            match scan_tag(src, ne) {
                Some(e) => {
                    let kind = if src[e - 2] == SLASH {
                        NodeKind::Empty
                    } else {
                        NodeKind::Open
                    };
                    Some((kind, e, ne))
                },
                None => None,
            }
        }
    }
}

/// Where a byte is found, it stands.
pub proof fn lemma_next_byte(src: Seq<u8>, i: int, b: u8)
    requires
        0 <= i <= src.len(),
    ensures
        i <= next_byte(src, i, b) <= src.len(),
        next_byte(src, i, b) < src.len() ==> src[next_byte(src, i, b)] == b,
    decreases src.len() - i,
{
    if i < src.len() && src[i] != b {
        lemma_next_byte(src, i + 1, b);
    }
}

/// A tag is closed by a `>` behind where the reading started.
pub proof fn lemma_tag_close(src: Seq<u8>, i: int, quote: u8)
    requires
        0 <= i,
    ensures
        tag_close(src, i, quote) matches Some(e) ==> i < e <= src.len() && src[e - 1] == GT,
    decreases src.len() - i,
{
    if 0 <= i < src.len() {
        if quote != 0 {
            lemma_tag_close(src, i + 1, if src[i] == quote { 0u8 } else { quote });
        } else if src[i] == GT {
        } else if src[i] == LT {
        } else if src[i] == QUOTE || src[i] == APOS {
            lemma_tag_close(src, i + 1, src[i]);
        } else {
            lemma_tag_close(src, i + 1, 0);
        }
    }
}

} // verus!
