//! The pieces of Rust syntax that the macro inputs are built from:
//! identifiers, punctuation, groups, attributes, visibilities, paths and
//! integer literals, each read at a position of a flat token sequence.
//!
//! Every reader takes the tokens `t`, a position `p` and the end `e` of the
//! group being read, and either returns what it read and the position after
//! it, or an error. The `sp_` spec functions say what each reader returns.

use vstd::prelude::*;
use vstd::string::*;
use crate::literal::{lit_int, lit_u32, parse_u32};
use crate::token::{err, mk_err, Delimiter, ErrorKind, Expected, ParseError, Section, Span, Spacing, Token};

verus! {

// ---------------------------------------------------------------------------
// Characters and strings
// ---------------------------------------------------------------------------

/// Whether two strings hold the same characters.
pub fn eq_str(a: &str, b: &str) -> (r: bool)
    ensures
        r == (a@ == b@),
{
    let n = a.unicode_len();
    let m = b.unicode_len();
    if n != m {
        return false;
    }
    let mut i: usize = 0;
    while i < n
        invariant
            n == a@.len(),
            m == b@.len(),
            n == m,
            i <= n,
            forall|k: int| 0 <= k < i ==> a@[k] == b@[k],
        decreases n - i,
    {
        if a.get_char(i) != b.get_char(i) {
            assert(a@[i as int] != b@[i as int]);
            return false;
        }
        i = i + 1;
    }
    assert(a@ =~= b@);
    true
}

/// The words that are not accepted as identifiers: keywords, reserved
/// words and `_`.
pub open spec fn is_keyword(s: Seq<char>) -> bool {
    ||| s == "_"@ ||| s == "abstract"@ ||| s == "as"@ ||| s == "become"@ ||| s == "box"@
    ||| s == "break"@ ||| s == "const"@ ||| s == "continue"@ ||| s == "crate"@ ||| s == "do"@
    ||| s == "else"@ ||| s == "enum"@ ||| s == "extern"@ ||| s == "false"@ ||| s == "final"@
    ||| s == "fn"@ ||| s == "for"@ ||| s == "if"@ ||| s == "impl"@ ||| s == "in"@
    ||| s == "let"@ ||| s == "loop"@ ||| s == "macro"@ ||| s == "match"@ ||| s == "mod"@
    ||| s == "move"@ ||| s == "mut"@ ||| s == "override"@ ||| s == "priv"@ ||| s == "pub"@
    ||| s == "ref"@ ||| s == "return"@ ||| s == "Self"@ ||| s == "self"@ ||| s == "static"@
    ||| s == "struct"@ ||| s == "super"@ ||| s == "trait"@ ||| s == "true"@ ||| s == "type"@
    ||| s == "typeof"@ ||| s == "unsafe"@ ||| s == "unsized"@ ||| s == "use"@
    ||| s == "virtual"@ ||| s == "where"@ ||| s == "while"@ ||| s == "yield"@
}

/// Whether `s` is a keyword.
pub fn keyword(s: &str) -> (r: bool)
    ensures
        r == is_keyword(s@),
{
    eq_str(s, "_") || eq_str(s, "abstract") || eq_str(s, "as") || eq_str(s, "become")
        || eq_str(s, "box") || eq_str(s, "break") || eq_str(s, "const") || eq_str(s, "continue")
        || eq_str(s, "crate") || eq_str(s, "do") || eq_str(s, "else") || eq_str(s, "enum")
        || eq_str(s, "extern") || eq_str(s, "false") || eq_str(s, "final") || eq_str(s, "fn")
        || eq_str(s, "for") || eq_str(s, "if") || eq_str(s, "impl") || eq_str(s, "in")
        || eq_str(s, "let") || eq_str(s, "loop") || eq_str(s, "macro") || eq_str(s, "match")
        || eq_str(s, "mod") || eq_str(s, "move") || eq_str(s, "mut") || eq_str(s, "override")
        || eq_str(s, "priv") || eq_str(s, "pub") || eq_str(s, "ref") || eq_str(s, "return")
        || eq_str(s, "Self") || eq_str(s, "self") || eq_str(s, "static") || eq_str(s, "struct")
        || eq_str(s, "super") || eq_str(s, "trait") || eq_str(s, "true") || eq_str(s, "type")
        || eq_str(s, "typeof") || eq_str(s, "unsafe") || eq_str(s, "unsized") || eq_str(s, "use")
        || eq_str(s, "virtual") || eq_str(s, "where") || eq_str(s, "while") || eq_str(s, "yield")
}

// ---------------------------------------------------------------------------
// Single tokens
// ---------------------------------------------------------------------------

/// The token at `p`, if `p` lies before the end `e`.
pub open spec fn tok(t: Seq<Token>, p: int, e: int) -> Option<Token> {
    if 0 <= p && p < e && p < t.len() {
        Some(t[p])
    } else {
        None
    }
}

/// The token at `p` is the identifier `w`.
pub open spec fn ident_is(t: Seq<Token>, p: int, e: int, w: Seq<char>) -> bool {
    match tok(t, p, e) {
        Some(Token::Ident(s)) => s@ == w,
        _ => false,
    }
}

/// The token at `p` is an identifier that is not a keyword.
pub open spec fn plain_ident(t: Seq<Token>, p: int, e: int) -> bool {
    match tok(t, p, e) {
        Some(Token::Ident(s)) => !is_keyword(s@),
        _ => false,
    }
}

/// The token at `p` is the punctuation `c`.
pub open spec fn punct_is(t: Seq<Token>, p: int, e: int, c: char) -> bool {
    match tok(t, p, e) {
        Some(Token::Punct(d, _)) => d == c,
        _ => false,
    }
}

/// The token at `p` is the punctuation `c`, joined to the next one.
pub open spec fn joint_is(t: Seq<Token>, p: int, e: int, c: char) -> bool {
    match tok(t, p, e) {
        Some(Token::Punct(d, s)) => d == c && s == Spacing::Joint,
        _ => false,
    }
}

/// The token at `p` opens a group delimited by `d`.
pub open spec fn open_is(t: Seq<Token>, p: int, e: int, d: Delimiter) -> bool {
    match tok(t, p, e) {
        Some(Token::Open(x)) => x == d,
        _ => false,
    }
}

/// `::` starts at `p`.
pub open spec fn colon2(t: Seq<Token>, p: int, e: int) -> bool {
    joint_is(t, p, e, ':') && punct_is(t, p + 1, e, ':')
}

/// `=>` starts at `p`.
pub open spec fn fat_arrow(t: Seq<Token>, p: int, e: int) -> bool {
    joint_is(t, p, e, '=') && punct_is(t, p + 1, e, '>')
}

/// Whether the token at `p` is the identifier `w`.
pub fn is_ident(t: &Vec<Token>, p: usize, e: usize, w: &str) -> (r: bool)
    requires
        e <= t@.len(),
    ensures
        r == ident_is(t@, p as int, e as int, w@),
{
    if p < e {
        match &t[p] {
            Token::Ident(s) => eq_str(s.as_str(), w),
            _ => false,
        }
    } else {
        false
    }
}

/// Whether the token at `p` is an identifier that is not a keyword.
pub fn is_plain_ident(t: &Vec<Token>, p: usize, e: usize) -> (r: bool)
    requires
        e <= t@.len(),
    ensures
        r == plain_ident(t@, p as int, e as int),
{
    if p < e {
        match &t[p] {
            Token::Ident(s) => !keyword(s.as_str()),
            _ => false,
        }
    } else {
        false
    }
}

/// Whether the token at `p` is the punctuation `c`.
pub fn is_punct(t: &Vec<Token>, p: usize, e: usize, c: char) -> (r: bool)
    requires
        e <= t@.len(),
    ensures
        r == punct_is(t@, p as int, e as int, c),
{
    if p < e {
        match &t[p] {
            Token::Punct(d, _) => *d == c,
            _ => false,
        }
    } else {
        false
    }
}

/// Whether the token at `p` is the punctuation `c`, joined to the next one.
pub fn is_joint(t: &Vec<Token>, p: usize, e: usize, c: char) -> (r: bool)
    requires
        e <= t@.len(),
    ensures
        r == joint_is(t@, p as int, e as int, c),
{
    if p < e {
        match &t[p] {
            Token::Punct(d, s) => *d == c && match s {
                Spacing::Joint => true,
                Spacing::Alone => false,
            },
            _ => false,
        }
    } else {
        false
    }
}

/// Whether the token at `p` opens a group delimited by `d`.
pub fn is_open(t: &Vec<Token>, p: usize, e: usize, d: Delimiter) -> (r: bool)
    requires
        e <= t@.len(),
    ensures
        r == open_is(t@, p as int, e as int, d),
{
    if p < e {
        match &t[p] {
            Token::Open(x) => *x == d,
            _ => false,
        }
    } else {
        false
    }
}

/// Whether `::` starts at `p`.
pub fn is_colon2(t: &Vec<Token>, p: usize, e: usize) -> (r: bool)
    requires
        e <= t@.len(),
    ensures
        r == colon2(t@, p as int, e as int),
{
    is_joint(t, p, e, ':') && p < e && is_punct(t, p + 1, e, ':')
}

/// Whether `=>` starts at `p`.
pub fn is_fat_arrow(t: &Vec<Token>, p: usize, e: usize) -> (r: bool)
    requires
        e <= t@.len(),
    ensures
        r == fat_arrow(t@, p as int, e as int),
{
    is_joint(t, p, e, '=') && p < e && is_punct(t, p + 1, e, '>')
}

/// A position result as a spec value.
pub open spec fn pos(r: Result<usize, ParseError>) -> Result<int, ParseError> {
    match r {
        Ok(q) => Ok(q as int),
        Err(x) => Err(x),
    }
}

/// The position is in `lo..=hi` when the result is one.
pub open spec fn pos_within(r: Result<usize, ParseError>, lo: int, hi: int) -> bool {
    match r {
        Ok(q) => lo <= q <= hi,
        Err(_) => true,
    }
}

/// Reads a non-keyword identifier; returns its position.
pub open spec fn sp_ident(t: Seq<Token>, p: int, e: int) -> Result<int, ParseError> {
    if plain_ident(t, p, e) {
        Ok(p)
    } else {
        Err(err(ErrorKind::Expected(Expected::Ident), p))
    }
}

/// Reads a non-keyword identifier; returns its position.
pub fn ident(t: &Vec<Token>, p: usize, e: usize) -> (r: Result<usize, ParseError>)
    requires
        e <= t@.len(),
    ensures
        pos(r) == sp_ident(t@, p as int, e as int),
        pos_within(r, p as int, e as int - 1),
{
    if is_plain_ident(t, p, e) {
        Ok(p)
    } else {
        Err(mk_err(ErrorKind::Expected(Expected::Ident), p))
    }
}

/// Reads the identifier `w` that opens section `sec`; returns the position
/// after it. A keyword or a non-identifier is refused as an identifier; any
/// other identifier is refused just after it.
pub open spec fn sp_keyword(t: Seq<Token>, p: int, e: int, w: Seq<char>, sec: Section) -> Result<
    int,
    ParseError,
> {
    if !plain_ident(t, p, e) {
        Err(err(ErrorKind::Expected(Expected::Ident), p))
    } else if !ident_is(t, p, e, w) {
        Err(err(ErrorKind::Expected(Expected::Keyword(sec)), p + 1))
    } else {
        Ok(p + 1)
    }
}

/// Reads the identifier `w` that opens section `sec`.
pub fn keyword_ident(t: &Vec<Token>, p: usize, e: usize, w: &str, sec: Section) -> (r: Result<
    usize,
    ParseError,
>)
    requires
        e <= t@.len(),
    ensures
        pos(r) == sp_keyword(t@, p as int, e as int, w@, sec),
        pos_within(r, p as int + 1, e as int),
{
    if !is_plain_ident(t, p, e) {
        Err(mk_err(ErrorKind::Expected(Expected::Ident), p))
    } else if !is_ident(t, p, e, w) {
        Err(mk_err(ErrorKind::Expected(Expected::Keyword(sec)), p + 1))
    } else {
        Ok(p + 1)
    }
}

/// Reads the punctuation `c`; returns the position after it.
pub open spec fn sp_punct(t: Seq<Token>, p: int, e: int, c: char, what: Expected) -> Result<
    int,
    ParseError,
> {
    if punct_is(t, p, e, c) {
        Ok(p + 1)
    } else {
        Err(err(ErrorKind::Expected(what), p))
    }
}

/// Reads the punctuation `c`.
pub fn punct(t: &Vec<Token>, p: usize, e: usize, c: char, what: Expected) -> (r: Result<
    usize,
    ParseError,
>)
    requires
        e <= t@.len(),
    ensures
        pos(r) == sp_punct(t@, p as int, e as int, c, what),
        pos_within(r, p as int + 1, e as int),
{
    if is_punct(t, p, e, c) {
        Ok(p + 1)
    } else {
        Err(mk_err(ErrorKind::Expected(what), p))
    }
}

/// Reads `=>`; returns the position after it.
pub open spec fn sp_fat_arrow(t: Seq<Token>, p: int, e: int) -> Result<int, ParseError> {
    if fat_arrow(t, p, e) {
        Ok(p + 2)
    } else {
        Err(err(ErrorKind::Expected(Expected::FatArrow), p))
    }
}

/// Reads `=>`.
pub fn arrow(t: &Vec<Token>, p: usize, e: usize) -> (r: Result<usize, ParseError>)
    requires
        e <= t@.len(),
    ensures
        pos(r) == sp_fat_arrow(t@, p as int, e as int),
        pos_within(r, p as int + 2, e as int),
{
    if is_fat_arrow(t, p, e) {
        Ok(p + 2)
    } else {
        Err(mk_err(ErrorKind::Expected(Expected::FatArrow), p))
    }
}

// ---------------------------------------------------------------------------
// Groups
// ---------------------------------------------------------------------------

/// The position of the token that closes the group whose content starts at
/// `j`, `depth` groups deep inside it.
pub open spec fn close_from(t: Seq<Token>, j: int, depth: nat) -> Option<int>
    decreases t.len() - j,
{
    if j < 0 || j >= t.len() {
        None
    } else {
        match t[j] {
            Token::Open(_) => close_from(t, j + 1, depth + 1),
            Token::Close(_) => if depth == 0 {
                Some(j)
            } else {
                close_from(t, j + 1, (depth - 1) as nat)
            },
            _ => close_from(t, j + 1, depth),
        }
    }
}

/// A closing position lies at or after where the scan starts.
pub proof fn lemma_close_from_bounds(t: Seq<Token>, j: int, depth: nat)
    ensures
        close_from(t, j, depth) matches Some(c) ==> j <= c < t.len(),
    decreases t.len() - j,
{
    if j < 0 || j >= t.len() {
    } else {
        match t[j] {
            Token::Open(_) => lemma_close_from_bounds(t, j + 1, depth + 1),
            Token::Close(_) => if depth != 0 {
                lemma_close_from_bounds(t, j + 1, (depth - 1) as nat)
            },
            _ => lemma_close_from_bounds(t, j + 1, depth),
        }
    }
}

/// Finds the token that closes the group whose content starts at `start`.
pub fn find_close(t: &Vec<Token>, start: usize) -> (r: Option<usize>)
    ensures
        match r {
            Some(c) => close_from(t@, start as int, 0) == Some(c as int),
            None => close_from(t@, start as int, 0) is None,
        },
        r matches Some(c) ==> start <= c < t@.len(),
{
    proof {
        lemma_close_from_bounds(t@, start as int, 0);
    }
    let mut j = start;
    let mut depth: usize = 0;
    while j < t.len()
        invariant
            start <= j,
            depth <= j,
            close_from(t@, start as int, 0) == close_from(t@, j as int, depth as nat),
        decreases t@.len() - j,
    {
        match &t[j] {
            Token::Open(_) => {
                depth = depth + 1;
            },
            Token::Close(_) => {
                if depth == 0 {
                    return Some(j);
                }
                depth = depth - 1;
            },
            _ => {},
        }
        j = j + 1;
    }
    None
}

/// Reads a group delimited by `d` that starts at `p`; returns the position
/// of its closing token, which lies before `e`. Its content is `p + 1` up to
/// that position.
pub open spec fn sp_group(t: Seq<Token>, p: int, e: int, d: Delimiter, what: Expected) -> Result<
    int,
    ParseError,
> {
    if open_is(t, p, e, d) {
        match close_from(t, p + 1, 0) {
            Some(c) => if c < e {
                Ok(c)
            } else {
                Err(err(ErrorKind::Unbalanced, p))
            },
            None => Err(err(ErrorKind::Unbalanced, p)),
        }
    } else {
        Err(err(ErrorKind::Expected(what), p))
    }
}

/// The close of a group read at `p` lies after `p` and before `e`.
pub proof fn lemma_group_bounds(t: Seq<Token>, p: int, e: int, d: Delimiter, what: Expected)
    ensures
        sp_group(t, p, e, d, what) matches Ok(c) ==> p < c < e,
{
    lemma_close_from_bounds(t, p + 1, 0);
}

/// Reads a group delimited by `d`.
pub fn group(t: &Vec<Token>, p: usize, e: usize, d: Delimiter, what: Expected) -> (r: Result<
    usize,
    ParseError,
>)
    requires
        e <= t@.len(),
    ensures
        pos(r) == sp_group(t@, p as int, e as int, d, what),
        pos_within(r, p as int + 1, e as int - 1),
{
    proof {
        lemma_close_from_bounds(t@, p as int + 1, 0);
    }
    if is_open(t, p, e, d) {
        match find_close(t, p + 1) {
            Some(c) => if c < e {
                Ok(c)
            } else {
                Err(mk_err(ErrorKind::Unbalanced, p))
            },
            None => Err(mk_err(ErrorKind::Unbalanced, p)),
        }
    } else {
        Err(mk_err(ErrorKind::Expected(what), p))
    }
}

// ---------------------------------------------------------------------------
// Paths
// ---------------------------------------------------------------------------

/// The token at `p` may be a segment of a module-style path.
pub open spec fn mod_segment(t: Seq<Token>, p: int, e: int) -> bool {
    ||| plain_ident(t, p, e)
    ||| ident_is(t, p, e, "super"@)
    ||| ident_is(t, p, e, "self"@)
    ||| ident_is(t, p, e, "Self"@)
    ||| ident_is(t, p, e, "crate"@)
}

fn is_mod_segment(t: &Vec<Token>, p: usize, e: usize) -> (r: bool)
    requires
        e <= t@.len(),
    ensures
        r == mod_segment(t@, p as int, e as int),
{
    is_plain_ident(t, p, e) || is_ident(t, p, e, "super") || is_ident(t, p, e, "self")
        || is_ident(t, p, e, "Self") || is_ident(t, p, e, "crate")
}

/// The segments of a module-style path from `p`; `first` while none was read.
pub open spec fn sp_mod_segments(t: Seq<Token>, p: int, e: int, first: bool) -> Result<
    int,
    ParseError,
>
    decreases e - p,
{
    if mod_segment(t, p, e) {
        if colon2(t, p + 1, e) {
            sp_mod_segments(t, p + 3, e, false)
        } else {
            Ok(p + 1)
        }
    } else if first {
        Err(err(ErrorKind::Expected(Expected::Path), p))
    } else {
        Err(err(ErrorKind::Expected(Expected::PathSegment), p))
    }
}

/// Reads a module-style path (`a::b`, `::a`, `crate::a`, no generic
/// arguments), as in attributes and `pub(in ...)`.
pub open spec fn sp_mod_path(t: Seq<Token>, p: int, e: int) -> Result<int, ParseError> {
    if colon2(t, p, e) {
        sp_mod_segments(t, p + 2, e, true)
    } else {
        sp_mod_segments(t, p, e, true)
    }
}

/// Reads a module-style path.
pub fn mod_path(t: &Vec<Token>, p: usize, e: usize) -> (r: Result<usize, ParseError>)
    requires
        p <= e <= t@.len(),
    ensures
        pos(r) == sp_mod_path(t@, p as int, e as int),
        pos_within(r, p as int, e as int),
{
    let mut q = if is_colon2(t, p, e) {
        p + 2
    } else {
        p
    };
    let mut first = true;
    while is_mod_segment(t, q, e)
        invariant
            p <= q <= e,
            e <= t@.len(),
            sp_mod_path(t@, p as int, e as int) == sp_mod_segments(t@, q as int, e as int, first),
        decreases e - q,
    {
        if is_colon2(t, q + 1, e) {
            q = q + 3;
            first = false;
        } else {
            return Ok(q + 1);
        }
    }
    if first {
        Err(mk_err(ErrorKind::Expected(Expected::Path), q))
    } else {
        Err(mk_err(ErrorKind::Expected(Expected::PathSegment), q))
    }
}

/// The `>` at `j` is the head of an arrow `->`.
pub open spec fn arrow_head(t: Seq<Token>, j: int) -> bool {
    j > 0 && joint_is(t, j - 1, t.len() as int, '-')
}

/// Scanning the content of angle brackets from `j`, `depth` brackets deep
/// inside: the position of the `>` that closes them, before `e`. Groups are
/// passed over whole and the `>` of an arrow `->` closes nothing; what lies
/// between the brackets (types, lifetimes, bindings) is not read further.
pub open spec fn angle_close(t: Seq<Token>, j: int, e: int, depth: nat) -> Option<int>
    decreases e - j,
{
    if j < 0 || j >= e || j >= t.len() {
        None
    } else {
        match t[j] {
            Token::Open(_) => match close_from(t, j + 1, 0) {
                Some(c) => if c < e {
                    proof {
                        lemma_close_from_bounds(t, j + 1, 0);
                    }
                    angle_close(t, c + 1, e, depth)
                } else {
                    None
                },
                None => None,
            },
            Token::Punct(c, _) => if c == '<' {
                angle_close(t, j + 1, e, depth + 1)
            } else if c == '>' && !arrow_head(t, j) {
                if depth == 0 {
                    Some(j)
                } else {
                    angle_close(t, j + 1, e, (depth - 1) as nat)
                }
            } else {
                angle_close(t, j + 1, e, depth)
            },
            _ => angle_close(t, j + 1, e, depth),
        }
    }
}

/// A closing `>` lies at or after where the scan starts and before the end.
pub proof fn lemma_angle_close_bounds(t: Seq<Token>, j: int, e: int, depth: nat)
    ensures
        angle_close(t, j, e, depth) matches Some(g) ==> j <= g < e,
    decreases e - j,
{
    if j < 0 || j >= e || j >= t.len() {
    } else {
        match t[j] {
            Token::Open(_) => {
                lemma_close_from_bounds(t, j + 1, 0);
                if let Some(c) = close_from(t, j + 1, 0) {
                    if c < e {
                        lemma_angle_close_bounds(t, c + 1, e, depth);
                    }
                }
            },
            Token::Punct(c, _) => if c == '<' {
                lemma_angle_close_bounds(t, j + 1, e, depth + 1);
            } else if c == '>' && !arrow_head(t, j) {
                if depth != 0 {
                    lemma_angle_close_bounds(t, j + 1, e, (depth - 1) as nat);
                }
            } else {
                lemma_angle_close_bounds(t, j + 1, e, depth);
            },
            _ => lemma_angle_close_bounds(t, j + 1, e, depth),
        }
    }
}

/// Finds the `>` that closes angle brackets whose content starts at `start`.
pub fn find_angle_close(t: &Vec<Token>, start: usize, e: usize) -> (r: Option<usize>)
    requires
        start <= e <= t@.len(),
    ensures
        match r {
            Some(g) => angle_close(t@, start as int, e as int, 0) == Some(g as int),
            None => angle_close(t@, start as int, e as int, 0) is None,
        },
        r matches Some(g) ==> start <= g < e,
{
    proof {
        lemma_angle_close_bounds(t@, start as int, e as int, 0);
    }
    let mut j = start;
    let mut depth: usize = 0;
    while j < e
        invariant
            start <= j <= e <= t@.len(),
            depth <= j,
            angle_close(t@, start as int, e as int, 0) == angle_close(
                t@,
                j as int,
                e as int,
                depth as nat,
            ),
        decreases e - j,
    {
        match &t[j] {
            Token::Open(_) => {
                match find_close(t, j + 1) {
                    Some(c) => if c < e {
                        j = c + 1;
                        continue ;
                    } else {
                        return None;
                    },
                    None => return None,
                }
            },
            Token::Punct(c, _) => {
                if *c == '<' {
                    depth = depth + 1;
                } else if *c == '>' && !(j > 0 && is_joint(t, j - 1, t.len(), '-')) {
                    if depth == 0 {
                        return Some(j);
                    }
                    depth = depth - 1;
                }
            },
            _ => {},
        }
        j = j + 1;
    }
    None
}

/// Reads `<...>` starting at `p` as a whole; returns the position after it.
pub open spec fn sp_angles(t: Seq<Token>, p: int, e: int) -> Result<int, ParseError> {
    match angle_close(t, p + 1, e, 0) {
        Some(g) => Ok(g + 1),
        None => Err(err(ErrorKind::Expected(Expected::Gt), e)),
    }
}

/// One segment of an expression path: `super`, `self` or `crate`; or an
/// identifier or `Self`, with generic arguments `::<...>` after it.
pub open spec fn sp_expr_segment(t: Seq<Token>, p: int, e: int) -> Result<int, ParseError> {
    if ident_is(t, p, e, "super"@) || ident_is(t, p, e, "self"@) || ident_is(t, p, e, "crate"@) {
        Ok(p + 1)
    } else if plain_ident(t, p, e) || ident_is(t, p, e, "Self"@) {
        if colon2(t, p + 1, e) && punct_is(t, p + 3, e, '<') {
            sp_angles(t, p + 3, e)
        } else {
            Ok(p + 1)
        }
    } else {
        Err(err(ErrorKind::Expected(Expected::Ident), p))
    }
}

/// Further `::segment`s of an expression path; a `::` followed by a
/// parenthesized group ends it.
pub open spec fn sp_expr_rest(t: Seq<Token>, p: int, e: int) -> Result<int, ParseError>
    decreases e - p,
{
    if colon2(t, p, e) && !open_is(t, p + 2, e, Delimiter::Parenthesis) {
        match sp_expr_segment(t, p + 2, e) {
            Err(x) => Err(x),
            Ok(q) => {
                proof {
                    lemma_angle_close_bounds(t, p + 6, e, 0);
                }
                sp_expr_rest(t, q, e)
            },
        }
    } else {
        Ok(p)
    }
}

/// The segments after the qualified self type of a path: at least one,
/// separated by `::`.
pub open spec fn sp_qself_rest(t: Seq<Token>, p: int, e: int) -> Result<int, ParseError>
    decreases e - p,
{
    match sp_expr_segment(t, p, e) {
        Err(x) => Err(x),
        Ok(q) => {
            proof {
                lemma_angle_close_bounds(t, p + 4, e, 0);
            }
            if colon2(t, q, e) {
                sp_qself_rest(t, q + 2, e)
            } else {
                Ok(q)
            }
        },
    }
}

/// Reads the path of a handler: outer attributes, then either a qualified
/// path `<T as Tr>::seg::seg` or an optional leading `::` and
/// `::`-separated segments. Generic arguments and the qualified self type are
/// taken as whole `<...>` runs.
pub open spec fn sp_expr_path(t: Seq<Token>, p: int, e: int) -> Result<int, ParseError> {
    match sp_attrs(t, p, e) {
        Err(x) => Err(x),
        Ok(q) => if punct_is(t, q, e, '<') {
            match sp_angles(t, q, e) {
                Err(x) => Err(x),
                Ok(g) => if colon2(t, g, e) {
                    sp_qself_rest(t, g + 2, e)
                } else {
                    Err(err(ErrorKind::Expected(Expected::Colon2), g))
                },
            }
        } else {
            let q1 = if colon2(t, q, e) {
                q + 2
            } else {
                q
            };
            match sp_expr_segment(t, q1, e) {
                Err(x) => Err(x),
                Ok(q2) => sp_expr_rest(t, q2, e),
            }
        },
    }
}

fn angles(t: &Vec<Token>, p: usize, e: usize) -> (r: Result<usize, ParseError>)
    requires
        p < e <= t@.len(),
    ensures
        pos(r) == sp_angles(t@, p as int, e as int),
        pos_within(r, p as int + 2, e as int),
{
    match find_angle_close(t, p + 1, e) {
        Some(g) => Ok(g + 1),
        None => Err(mk_err(ErrorKind::Expected(Expected::Gt), e)),
    }
}

fn expr_segment(t: &Vec<Token>, p: usize, e: usize) -> (r: Result<usize, ParseError>)
    requires
        p <= e <= t@.len(),
    ensures
        pos(r) == sp_expr_segment(t@, p as int, e as int),
        pos_within(r, p as int + 1, e as int),
{
    if is_ident(t, p, e, "super") || is_ident(t, p, e, "self") || is_ident(t, p, e, "crate") {
        Ok(p + 1)
    } else if is_plain_ident(t, p, e) || is_ident(t, p, e, "Self") {
        if is_colon2(t, p + 1, e) && is_punct(t, p + 3, e, '<') {
            angles(t, p + 3, e)
        } else {
            Ok(p + 1)
        }
    } else {
        Err(mk_err(ErrorKind::Expected(Expected::Ident), p))
    }
}

/// Reads the path of a handler.
pub fn expr_path(t: &Vec<Token>, p: usize, e: usize) -> (r: Result<usize, ParseError>)
    requires
        p <= e <= t@.len(),
    ensures
        pos(r) == sp_expr_path(t@, p as int, e as int),
        pos_within(r, p as int, e as int),
{
    let q = match attrs(t, p, e) {
        Ok(q) => q,
        Err(x) => return Err(x),
    };
    if is_punct(t, q, e, '<') {
        let g = match angles(t, q, e) {
            Ok(g) => g,
            Err(x) => return Err(x),
        };
        if !is_colon2(t, g, e) {
            return Err(mk_err(ErrorKind::Expected(Expected::Colon2), g));
        }
        let mut q2 = g + 2;
        loop
            invariant
                p <= q2 <= e,
                e <= t@.len(),
                sp_expr_path(t@, p as int, e as int) == sp_qself_rest(t@, q2 as int, e as int),
            decreases e - q2,
        {
            let q3 = match expr_segment(t, q2, e) {
                Ok(q3) => q3,
                Err(x) => return Err(x),
            };
            if is_colon2(t, q3, e) {
                q2 = q3 + 2;
            } else {
                return Ok(q3);
            }
        }
    }
    let q1 = if is_colon2(t, q, e) {
        q + 2
    } else {
        q
    };
    let mut q2 = match expr_segment(t, q1, e) {
        Ok(q2) => q2,
        Err(x) => return Err(x),
    };
    while is_colon2(t, q2, e) && !is_open(t, q2 + 2, e, Delimiter::Parenthesis)
        invariant
            p <= q2 <= e,
            e <= t@.len(),
            sp_expr_path(t@, p as int, e as int) == sp_expr_rest(t@, q2 as int, e as int),
        decreases e - q2,
    {
        q2 = match expr_segment(t, q2 + 2, e) {
            Ok(q3) => q3,
            Err(x) => return Err(x),
        };
    }
    Ok(q2)
}

// ---------------------------------------------------------------------------
// Attributes
// ---------------------------------------------------------------------------

/// Reads outer attributes `#[path tokens...]`, as many as follow; returns the
/// position after the last.
pub open spec fn sp_attrs(t: Seq<Token>, p: int, e: int) -> Result<int, ParseError>
    decreases e - p,
{
    if punct_is(t, p, e, '#') {
        match sp_group(t, p + 1, e, Delimiter::Bracket, Expected::Brackets) {
            Err(x) => Err(x),
            Ok(c) => match sp_mod_path(t, p + 2, c) {
                Err(x) => Err(x),
                Ok(_) => {
                    proof {
                        lemma_group_bounds(t, p + 1, e, Delimiter::Bracket, Expected::Brackets);
                    }
                    sp_attrs(t, c + 1, e)
                },
            },
        }
    } else {
        Ok(p)
    }
}

/// Reads outer attributes.
pub fn attrs(t: &Vec<Token>, p: usize, e: usize) -> (r: Result<usize, ParseError>)
    requires
        p <= e <= t@.len(),
    ensures
        pos(r) == sp_attrs(t@, p as int, e as int),
        pos_within(r, p as int, e as int),
{
    let mut q = p;
    while is_punct(t, q, e, '#')
        invariant
            p <= q <= e,
            e <= t@.len(),
            sp_attrs(t@, p as int, e as int) == sp_attrs(t@, q as int, e as int),
        decreases e - q,
    {
        let c = match group(t, q + 1, e, Delimiter::Bracket, Expected::Brackets) {
            Ok(c) => c,
            Err(x) => return Err(x),
        };
        match mod_path(t, q + 2, c) {
            Ok(_) => {},
            Err(x) => return Err(x),
        }
        q = c + 1;
    }
    Ok(q)
}

// ---------------------------------------------------------------------------
// Visibility
// ---------------------------------------------------------------------------

/// A visibility as read: its tokens, and the first token left unread inside
/// a `pub(in path ...)`, which makes the whole input fail in the end.
#[derive(PartialEq, Eq, Structural, Clone, Copy, Debug)]
pub struct Vis {
    pub span: Span,
    pub leftover: Option<usize>,
}

/// The visibility spanning `a..b`.
pub open spec fn vis_of(a: int, b: int, leftover: Option<usize>) -> Vis {
    Vis { span: Span { start: a as usize, end: b as usize }, leftover }
}

/// Reads a visibility: `pub`, `pub(crate)`, `pub(self)`, `pub(super)`,
/// `pub(in path)`, `crate` not followed by `::`, or nothing.
pub open spec fn sp_vis(t: Seq<Token>, p: int, e: int) -> Result<(Vis, int), ParseError> {
    if ident_is(t, p, e, "pub"@) {
        if open_is(t, p + 1, e, Delimiter::Parenthesis) {
            match sp_group(t, p + 1, e, Delimiter::Parenthesis, Expected::Parens) {
                Err(x) => Err(x),
                Ok(c) => {
                    let s = p + 2;
                    if ident_is(t, s, c, "crate"@) || ident_is(t, s, c, "self"@) || ident_is(
                        t,
                        s,
                        c,
                        "super"@,
                    ) {
                        if s + 1 == c {
                            Ok((vis_of(p, c + 1, None), c + 1))
                        } else {
                            Ok((vis_of(p, p + 1, None), p + 1))
                        }
                    } else if ident_is(t, s, c, "in"@) {
                        match sp_mod_path(t, s + 1, c) {
                            Err(x) => Err(x),
                            Ok(q) => Ok(
                                (
                                    vis_of(
                                        p,
                                        c + 1,
                                        if q < c {
                                            Some(q as usize)
                                        } else {
                                            None
                                        },
                                    ),
                                    c + 1,
                                ),
                            ),
                        }
                    } else {
                        Ok((vis_of(p, p + 1, None), p + 1))
                    }
                },
            }
        } else {
            Ok((vis_of(p, p + 1, None), p + 1))
        }
    } else if ident_is(t, p, e, "crate"@) {
        if colon2(t, p + 1, e) {
            Ok((vis_of(p, p, None), p))
        } else {
            Ok((vis_of(p, p + 1, None), p + 1))
        }
    } else {
        Ok((vis_of(p, p, None), p))
    }
}

/// A value-and-position result as a spec value.
pub open spec fn vpos<T>(r: Result<(T, usize), ParseError>) -> Result<(T, int), ParseError> {
    match r {
        Ok((v, q)) => Ok((v, q as int)),
        Err(x) => Err(x),
    }
}

/// The position is in `lo..=hi` when the result is one.
pub open spec fn vpos_within<T>(r: Result<(T, usize), ParseError>, lo: int, hi: int) -> bool {
    match r {
        Ok((_, q)) => lo <= q <= hi,
        Err(_) => true,
    }
}

fn mk_vis(a: usize, b: usize, leftover: Option<usize>) -> (v: Vis)
    ensures
        v == vis_of(a as int, b as int, leftover),
{
    Vis { span: Span { start: a, end: b }, leftover }
}

/// Reads a visibility.
pub fn vis(t: &Vec<Token>, p: usize, e: usize) -> (r: Result<(Vis, usize), ParseError>)
    requires
        p <= e <= t@.len(),
    ensures
        vpos(r) == sp_vis(t@, p as int, e as int),
        vpos_within(r, p as int, e as int),
{
    if is_ident(t, p, e, "pub") {
        if is_open(t, p + 1, e, Delimiter::Parenthesis) {
            let c = match group(t, p + 1, e, Delimiter::Parenthesis, Expected::Parens) {
                Ok(c) => c,
                Err(x) => return Err(x),
            };
            let s = p + 2;
            if is_ident(t, s, c, "crate") || is_ident(t, s, c, "self") || is_ident(
                t,
                s,
                c,
                "super",
            ) {
                if s + 1 == c {
                    Ok((mk_vis(p, c + 1, None), c + 1))
                } else {
                    Ok((mk_vis(p, p + 1, None), p + 1))
                }
            } else if is_ident(t, s, c, "in") {
                match mod_path(t, s + 1, c) {
                    Err(x) => Err(x),
                    Ok(q) => Ok(
                        (
                            mk_vis(
                                p,
                                c + 1,
                                if q < c {
                                    Some(q)
                                } else {
                                    None
                                },
                            ),
                            c + 1,
                        ),
                    ),
                }
            } else {
                Ok((mk_vis(p, p + 1, None), p + 1))
            }
        } else {
            Ok((mk_vis(p, p + 1, None), p + 1))
        }
    } else if is_ident(t, p, e, "crate") {
        if is_colon2(t, p + 1, e) {
            Ok((mk_vis(p, p, None), p))
        } else {
            Ok((mk_vis(p, p + 1, None), p + 1))
        }
    } else {
        Ok((mk_vis(p, p, None), p))
    }
}

} // verus!

verus! {

/// Attributes end at or after where they start, and not after the end.
pub proof fn lemma_attrs_bounds(t: Seq<Token>, p: int, e: int)
    ensures
        sp_attrs(t, p, e) matches Ok(q) ==> p <= q,
        sp_attrs(t, p, e) matches Ok(q) ==> (p <= e ==> q <= e),
    decreases e - p,
{
    if punct_is(t, p, e, '#') {
        lemma_group_bounds(t, p + 1, e, Delimiter::Bracket, Expected::Brackets);
        match sp_group(t, p + 1, e, Delimiter::Bracket, Expected::Brackets) {
            Err(_) => {},
            Ok(c) => lemma_attrs_bounds(t, c + 1, e),
        }
    }
}

/// A visibility ends at or after where it starts, and not after the end.
pub proof fn lemma_vis_bounds(t: Seq<Token>, p: int, e: int)
    requires
        p <= e,
    ensures
        sp_vis(t, p, e) matches Ok((_, q)) ==> p <= q <= e,
{
    lemma_group_bounds(t, p + 1, e, Delimiter::Parenthesis, Expected::Parens);
}

/// `pub` followed by a parenthesized group that holds exactly `crate`,
/// `self` or `super` is one visibility, ending after the group, whichever
/// of the three the group holds.
pub proof fn lemma_restricted_vis(t: Seq<Token>, p: int, e: int, w: Seq<char>)
    requires
        0 <= p,
        p + 3 < e <= t.len(),
        w == "crate"@ || w == "self"@ || w == "super"@,
        ident_is(t, p, e, "pub"@),
        t[p + 1] == Token::Open(Delimiter::Parenthesis),
        ident_is(t, p + 2, e, w),
        t[p + 3] == Token::Close(Delimiter::Parenthesis),
    ensures
        sp_vis(t, p, e) == Ok::<(Vis, int), ParseError>((vis_of(p, p + 4, None), p + 4)),
{
    assert(close_from(t, p + 3, 0) == Some(p + 3));
    assert(close_from(t, p + 2, 0) == Some(p + 3));
    assert(sp_group(t, p + 1, e, Delimiter::Parenthesis, Expected::Parens) == Ok::<int, ParseError>(
        p + 3,
    ));
    assert(ident_is(t, p + 2, p + 3, w));
}

/// `pub` not followed by a parenthesized group is the visibility `pub`
/// alone.
pub proof fn lemma_plain_pub(t: Seq<Token>, p: int, e: int)
    requires
        ident_is(t, p, e, "pub"@),
        !open_is(t, p + 1, e, Delimiter::Parenthesis),
    ensures
        sp_vis(t, p, e) == Ok::<(Vis, int), ParseError>((vis_of(p, p + 1, None), p + 1)),
{
}

/// `pub(in path)` is one visibility ending after its group; a token of the
/// group that the path leaves unread is kept as left over.
pub proof fn lemma_vis_in_path(t: Seq<Token>, p: int, e: int)
    requires
        ident_is(t, p, e, "pub"@),
        sp_group(t, p + 1, e, Delimiter::Parenthesis, Expected::Parens) is Ok,
        ident_is(t, p + 2, sp_group(t, p + 1, e, Delimiter::Parenthesis, Expected::Parens)->Ok_0, "in"@),
        sp_mod_path(t, p + 3, sp_group(t, p + 1, e, Delimiter::Parenthesis, Expected::Parens)->Ok_0) is Ok,
    ensures
        ({
            let c = sp_group(t, p + 1, e, Delimiter::Parenthesis, Expected::Parens)->Ok_0;
            let m = sp_mod_path(t, p + 3, c)->Ok_0;
            sp_vis(t, p, e) == Ok::<(Vis, int), ParseError>(
                (vis_of(p, c + 1, if m < c { Some(m as usize) } else { None }), c + 1),
            )
        }),
{
    reveal_strlit("in");
    reveal_strlit("crate");
    reveal_strlit("self");
    reveal_strlit("super");
    assert("in"@.len() == 2 && "crate"@.len() == 5 && "self"@.len() == 4 && "super"@.len() == 5);
}

/// `crate` not followed by `::` is a visibility of its one token; `crate::`
/// starts a path, not a visibility. A token that is neither `pub` nor
/// `crate` starts no visibility: an empty one is read before it.
pub proof fn lemma_crate_or_no_vis(t: Seq<Token>, p: int, e: int)
    requires
        !ident_is(t, p, e, "pub"@),
    ensures
        ident_is(t, p, e, "crate"@) && !colon2(t, p + 1, e) ==> sp_vis(t, p, e) == Ok::<
            (Vis, int),
            ParseError,
        >((vis_of(p, p + 1, None), p + 1)),
        !(ident_is(t, p, e, "crate"@) && !colon2(t, p + 1, e)) ==> sp_vis(t, p, e) == Ok::<
            (Vis, int),
            ParseError,
        >((vis_of(p, p, None), p)),
{
}

/// Reads an integer literal as a `u32`. A `-` followed by a literal is read
/// as one negative literal: no `u32`, and an error as an invalid digit when
/// it is an integer.
pub open spec fn sp_int(t: Seq<Token>, p: int, e: int) -> Result<u32, ParseError> {
    match tok(t, p, e) {
        Some(Token::Literal(s)) => match lit_u32(s@) {
            Ok(v) => Ok(v),
            Err(k) => Err(err(k, p)),
        },
        Some(Token::Punct(c, _)) => if c == '-' {
            match tok(t, p + 1, e) {
                Some(Token::Literal(s)) => if lit_int(seq!['-'] + s@) is Some {
                    Err(err(ErrorKind::InvalidDigit, p))
                } else {
                    Err(err(ErrorKind::Expected(Expected::IntLiteral), p))
                },
                _ => Err(err(ErrorKind::Expected(Expected::IntLiteral), p)),
            }
        } else {
            Err(err(ErrorKind::Expected(Expected::IntLiteral), p))
        },
        _ => Err(err(ErrorKind::Expected(Expected::IntLiteral), p)),
    }
}

/// Whether `-` followed by the literal text `s` is an integer literal.
fn negative_is_int(s: &str) -> (r: bool)
    ensures
        r == (lit_int(seq!['-'] + s@) is Some),
{
    proof {
        reveal_strlit("-");
    }
    let neg = String::from_str("-").concat(s);
    assert(neg@ =~= seq!['-'] + s@);
    match parse_u32(neg.as_str()) {
        Err(ErrorKind::InvalidDigit) => true,
        _ => false,
    }
}

/// Reads an integer literal as a `u32`.
pub fn int_lit(t: &Vec<Token>, p: usize, e: usize) -> (r: Result<u32, ParseError>)
    requires
        e <= t@.len(),
    ensures
        r == sp_int(t@, p as int, e as int),
{
    if p < e {
        match &t[p] {
            Token::Literal(s) => match parse_u32(s.as_str()) {
                Ok(v) => Ok(v),
                Err(k) => Err(mk_err(k, p)),
            },
            Token::Punct(c, _) => {
                if *c == '-' && p + 1 < e {
                    if let Token::Literal(s) = &t[p + 1] {
                        if negative_is_int(s.as_str()) {
                            return Err(mk_err(ErrorKind::InvalidDigit, p));
                        }
                    }
                }
                Err(mk_err(ErrorKind::Expected(Expected::IntLiteral), p))
            },
            _ => Err(mk_err(ErrorKind::Expected(Expected::IntLiteral), p)),
        }
    } else {
        Err(mk_err(ErrorKind::Expected(Expected::IntLiteral), p))
    }
}

/// The text of the identifier at `i`; empty when there is none.
pub open spec fn ident_text(t: Seq<Token>, i: int) -> Seq<char> {
    if 0 <= i < t.len() {
        match t[i] {
            Token::Ident(s) => s@,
            _ => Seq::empty(),
        }
    } else {
        Seq::empty()
    }
}

/// The text of the identifier at `i`.
pub fn ident_str(t: &Vec<Token>, i: usize) -> (r: &str)
    ensures
        r@ == ident_text(t@, i as int),
{
    if i < t.len() {
        match &t[i] {
            Token::Ident(s) => s.as_str(),
            _ => {
                proof {
                    reveal_strlit("");
                }
                ""
            },
        }
    } else {
        proof {
            reveal_strlit("");
        }
        ""
    }
}

} // verus!
