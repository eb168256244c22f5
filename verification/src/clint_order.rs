//! The sections of a `thr::clint!` input may come in any order: each
//! section is read the same wherever it stands, up to the positions of its
//! tokens.
//!
//! The proof rests on two facts about the readers. Reading depends only on
//! the tokens of the range read, so moving those tokens moves the result
//! with them (the `_moves` lemmas). And a section read whole within a range
//! is read the same when other tokens follow the range (the `_ext` lemmas).

use vstd::prelude::*;
use crate::syntax::{
    close_from, colon2, ident_is, lemma_attrs_bounds, lemma_close_from_bounds, lemma_group_bounds,
    lemma_vis_bounds, mod_segment, open_is, punct_is, sp_attrs, sp_fat_arrow, sp_group, sp_ident,
    sp_int, sp_mod_path, sp_mod_segments, sp_punct, sp_vis, tok, Vis,
};
use crate::thr::{span, Block, Decl};
use crate::thr_clint::{
    fill, filled, input_leftover, lemma_entry_body_bounds, lemma_fill_commutes,
    lemma_item_body_bounds, lemma_section_reading, no_sections, section_at, sp_block, sp_decl,
    sp_entries, sp_entry_body, sp_external_items, sp_items, sp_parse, sp_section_value,
    sp_software_items, sp_threads, threads_leftover, InputView, SectionValue, SectionsView, Thread,
    ThreadSpec, ThreadsAcc,
};
use crate::token::{err, Delimiter, ErrorKind, Expected, ParseError, Section, Spacing, Span, Token};

verus! {

// ---------------------------------------------------------------------------
// Moving tokens
// ---------------------------------------------------------------------------

/// The tokens of `t1` from `p` up to `e` stand in `t2` moved by `d`.
pub open spec fn agree(t1: Seq<Token>, t2: Seq<Token>, p: int, e: int, d: int) -> bool {
    &&& 0 <= p <= e <= t1.len() <= usize::MAX
    &&& 0 <= p + d
    &&& e + d <= t2.len() <= usize::MAX
    &&& forall|k: int| p <= k < e ==> t2[k + d] == #[trigger] t1[k]
}

/// A position moved by `d`.
pub open spec fn sh(x: usize, d: int) -> usize {
    (x as int + d) as usize
}

/// A range moved by `d`.
pub open spec fn sh_span(s: Span, d: int) -> Span {
    Span { start: sh(s.start, d), end: sh(s.end, d) }
}

/// An optional position moved by `d`.
pub open spec fn sh_opt(o: Option<usize>, d: int) -> Option<usize> {
    match o {
        Some(x) => Some(sh(x, d)),
        None => None,
    }
}

/// A visibility moved by `d`.
pub open spec fn sh_vis(v: Vis, d: int) -> Vis {
    Vis { span: sh_span(v.span, d), leftover: sh_opt(v.leftover, d) }
}

/// A block section moved by `d`.
pub open spec fn sh_block(b: Block, d: int) -> Block {
    Block {
        attrs: sh_span(b.attrs, d),
        vis: sh_vis(b.vis, d),
        ident: sh(b.ident, d),
        tokens: sh_span(b.tokens, d),
    }
}

/// A declaration section moved by `d`.
pub open spec fn sh_decl(x: Decl, d: int) -> Decl {
    Decl { attrs: sh_span(x.attrs, d), vis: sh_vis(x.vis, d), ident: sh(x.ident, d) }
}

/// A thread specification moved by `d`.
pub open spec fn sh_spec(s: ThreadSpec, d: int) -> ThreadSpec {
    ThreadSpec { attrs: sh_span(s.attrs, d), vis: sh_vis(s.vis, d), ident: sh(s.ident, d) }
}

/// A thread moved by `d`.
pub open spec fn sh_thread(th: Thread, d: int) -> Thread {
    match th {
        Thread::Exception(s) => Thread::Exception(sh_spec(s, d)),
        Thread::Timer(s) => Thread::Timer(sh_spec(s, d)),
        Thread::External(n, s) => Thread::External(n, sh_spec(s, d)),
        Thread::Software(s) => Thread::Software(sh_spec(s, d)),
    }
}

/// Threads moved by `d`.
pub open spec fn sh_threads(ths: Seq<Thread>, d: int) -> Seq<Thread> {
    ths.map_values(|th: Thread| sh_thread(th, d))
}

/// An error moved by `d`.
pub open spec fn sh_err(x: ParseError, d: int) -> ParseError {
    ParseError {
        kind: match x.kind {
            ErrorKind::UnexpectedIdent(i) => ErrorKind::UnexpectedIdent(sh(i, d)),
            k => k,
        },
        at: sh(x.at, d),
    }
}

/// A position result moved by `d`.
pub open spec fn sh_pos(r: Result<int, ParseError>, d: int) -> Result<int, ParseError> {
    match r {
        Ok(q) => Ok(q + d),
        Err(x) => Err(sh_err(x, d)),
    }
}

/// The token at `x` reads the same moved.
pub proof fn lemma_tok_moves(t1: Seq<Token>, t2: Seq<Token>, p: int, e: int, d: int, x: int)
    requires
        agree(t1, t2, p, e, d),
        p <= x,
    ensures
        tok(t2, x + d, e + d) == tok(t1, x, e),
{
    if x < e {
        assert(t2[x + d] == t1[x]);
    }
}

proof fn lemma_toks_move(t1: Seq<Token>, t2: Seq<Token>, p: int, e: int, d: int, x: int)
    requires
        agree(t1, t2, p, e, d),
        p <= x,
    ensures
        tok(t2, x + d, e + d) == tok(t1, x, e),
        tok(t2, x + 1 + d, e + d) == tok(t1, x + 1, e),
        tok(t2, x + 2 + d, e + d) == tok(t1, x + 2, e),
        tok(t2, x + 3 + d, e + d) == tok(t1, x + 3, e),
{
    lemma_tok_moves(t1, t2, p, e, d, x);
    lemma_tok_moves(t1, t2, p, e, d, x + 1);
    lemma_tok_moves(t1, t2, p, e, d, x + 2);
    lemma_tok_moves(t1, t2, p, e, d, x + 3);
}

/// An error at a position moved by `d`.
proof fn lemma_err_moves(k: ErrorKind, p: int, d: int)
    requires
        0 <= p <= usize::MAX,
        0 <= p + d <= usize::MAX,
        !(k is UnexpectedIdent),
    ensures
        sh_err(err(k, p), d) == err(k, p + d),
{
}

proof fn lemma_agree_from(t1: Seq<Token>, t2: Seq<Token>, p: int, e: int, d: int, p2: int, e2: int)
    requires
        agree(t1, t2, p, e, d),
        p <= p2 <= e2 <= e,
    ensures
        agree(t1, t2, p2, e2, d),
{
}

/// Finding the end of a group within the range reads the same moved.
pub proof fn lemma_close_moves(t1: Seq<Token>, t2: Seq<Token>, j: int, e: int, d: int, depth: nat)
    requires
        agree(t1, t2, j, e, d),
    ensures
        close_from(t1, j, depth) matches Some(c) ==> (c < e ==> close_from(t2, j + d, depth) == Some(
            c + d,
        )),
        close_from(t2, j + d, depth) matches Some(c) ==> (c < e + d ==> close_from(t1, j, depth)
            == Some(c - d)),
    decreases e - j,
{
    lemma_close_from_bounds(t1, j, depth);
    lemma_close_from_bounds(t2, j + d, depth);
    if j < e {
        assert(t2[j + d] == t1[j]);
        lemma_agree_from(t1, t2, j, e, d, j + 1, e);
        match t1[j] {
            Token::Open(_) => lemma_close_moves(t1, t2, j + 1, e, d, depth + 1),
            Token::Close(_) => if depth != 0 {
                lemma_close_moves(t1, t2, j + 1, e, d, (depth - 1) as nat);
            },
            _ => lemma_close_moves(t1, t2, j + 1, e, d, depth),
        }
    }
}

/// Reading a group reads the same moved.
pub proof fn lemma_group_moves(
    t1: Seq<Token>,
    t2: Seq<Token>,
    p: int,
    e: int,
    d: int,
    dl: Delimiter,
    what: Expected,
)
    requires
        agree(t1, t2, p, e, d),
    ensures
        sp_group(t2, p + d, e + d, dl, what) == sh_pos(sp_group(t1, p, e, dl, what), d),
{
    lemma_toks_move(t1, t2, p, e, d, p);
    lemma_err_moves(ErrorKind::Expected(what), p, d);
    lemma_err_moves(ErrorKind::Unbalanced, p, d);
    if open_is(t1, p, e, dl) {
        lemma_agree_from(t1, t2, p, e, d, p + 1, e);
        lemma_close_moves(t1, t2, p + 1, e, d, 0);
    }
}

/// A visibility result moved by `d`.
pub open spec fn sh_vis_r(r: Result<(Vis, int), ParseError>, d: int) -> Result<(Vis, int), ParseError> {
    match r {
        Ok((v, q)) => Ok((sh_vis(v, d), q + d)),
        Err(x) => Err(sh_err(x, d)),
    }
}

/// An integer result moved by `d`.
pub open spec fn sh_u32(r: Result<u32, ParseError>, d: int) -> Result<u32, ParseError> {
    match r {
        Ok(v) => Ok(v),
        Err(x) => Err(sh_err(x, d)),
    }
}

/// The segments of a module path read the same moved.
pub proof fn lemma_mod_segments_moves(t1: Seq<Token>, t2: Seq<Token>, p: int, e: int, d: int, first: bool)
    requires
        agree(t1, t2, p, e, d),
    ensures
        sp_mod_segments(t2, p + d, e + d, first) == sh_pos(sp_mod_segments(t1, p, e, first), d),
    decreases e - p,
{
    lemma_toks_move(t1, t2, p, e, d, p);
    lemma_err_moves(ErrorKind::Expected(Expected::Path), p, d);
    lemma_err_moves(ErrorKind::Expected(Expected::PathSegment), p, d);
    if mod_segment(t1, p, e) && colon2(t1, p + 1, e) {
        lemma_agree_from(t1, t2, p, e, d, p + 3, e);
        lemma_mod_segments_moves(t1, t2, p + 3, e, d, false);
    }
}

/// A module path reads the same moved.
pub proof fn lemma_mod_path_moves(t1: Seq<Token>, t2: Seq<Token>, p: int, e: int, d: int)
    requires
        agree(t1, t2, p, e, d),
    ensures
        sp_mod_path(t2, p + d, e + d) == sh_pos(sp_mod_path(t1, p, e), d),
{
    lemma_toks_move(t1, t2, p, e, d, p);
    if colon2(t1, p, e) {
        lemma_agree_from(t1, t2, p, e, d, p + 2, e);
        lemma_mod_segments_moves(t1, t2, p + 2, e, d, true);
    } else {
        lemma_mod_segments_moves(t1, t2, p, e, d, true);
    }
}

/// The segments of a module path end after they start, and not after the end.
proof fn lemma_mod_segments_bounds(t: Seq<Token>, p: int, e: int, first: bool)
    ensures
        sp_mod_segments(t, p, e, first) matches Ok(q) ==> p < q <= e,
    decreases e - p,
{
    if mod_segment(t, p, e) && colon2(t, p + 1, e) {
        lemma_mod_segments_bounds(t, p + 3, e, false);
    }
}

/// A module path ends after it starts, and not after the end.
proof fn lemma_mod_path_bounds(t: Seq<Token>, p: int, e: int)
    ensures
        sp_mod_path(t, p, e) matches Ok(q) ==> p < q <= e,
{
    lemma_mod_segments_bounds(t, p, e, true);
    lemma_mod_segments_bounds(t, p + 2, e, true);
}

/// Attributes read the same moved.
pub proof fn lemma_attrs_moves(t1: Seq<Token>, t2: Seq<Token>, p: int, e: int, d: int)
    requires
        agree(t1, t2, p, e, d),
    ensures
        sp_attrs(t2, p + d, e + d) == sh_pos(sp_attrs(t1, p, e), d),
    decreases e - p,
{
    lemma_toks_move(t1, t2, p, e, d, p);
    if punct_is(t1, p, e, '#') {
        lemma_agree_from(t1, t2, p, e, d, p + 1, e);
        lemma_group_moves(t1, t2, p + 1, e, d, Delimiter::Bracket, Expected::Brackets);
        lemma_group_bounds(t1, p + 1, e, Delimiter::Bracket, Expected::Brackets);
        if let Ok(c) = sp_group(t1, p + 1, e, Delimiter::Bracket, Expected::Brackets) {
            lemma_agree_from(t1, t2, p, e, d, p + 2, c);
            lemma_mod_path_moves(t1, t2, p + 2, c, d);
            lemma_agree_from(t1, t2, p, e, d, c + 1, e);
            lemma_attrs_moves(t1, t2, c + 1, e, d);
        }
    }
}

/// A visibility reads the same moved.
pub proof fn lemma_vis_moves(t1: Seq<Token>, t2: Seq<Token>, p: int, e: int, d: int)
    requires
        agree(t1, t2, p, e, d),
    ensures
        sp_vis(t2, p + d, e + d) == sh_vis_r(sp_vis(t1, p, e), d),
{
    lemma_toks_move(t1, t2, p, e, d, p);
    if ident_is(t1, p, e, "pub"@) && open_is(t1, p + 1, e, Delimiter::Parenthesis) {
        lemma_agree_from(t1, t2, p, e, d, p + 1, e);
        lemma_group_moves(t1, t2, p + 1, e, d, Delimiter::Parenthesis, Expected::Parens);
        lemma_group_bounds(t1, p + 1, e, Delimiter::Parenthesis, Expected::Parens);
        if let Ok(c) = sp_group(t1, p + 1, e, Delimiter::Parenthesis, Expected::Parens) {
            lemma_agree_from(t1, t2, p, e, d, p + 2, c);
            lemma_toks_move(t1, t2, p + 2, c, d, p + 2);
            if p + 3 <= c {
                lemma_agree_from(t1, t2, p, e, d, p + 3, c);
                lemma_mod_path_moves(t1, t2, p + 3, c, d);
                lemma_mod_path_bounds(t1, p + 3, c);
            }
        }
    }
}

/// An identifier reads the same moved.
pub proof fn lemma_ident_moves(t1: Seq<Token>, t2: Seq<Token>, p: int, e: int, d: int)
    requires
        agree(t1, t2, p, e, d),
    ensures
        sp_ident(t2, p + d, e + d) == sh_pos(sp_ident(t1, p, e), d),
{
    lemma_toks_move(t1, t2, p, e, d, p);
    lemma_err_moves(ErrorKind::Expected(Expected::Ident), p, d);
}

/// Punctuation reads the same moved.
pub proof fn lemma_punct_moves(t1: Seq<Token>, t2: Seq<Token>, p: int, e: int, d: int, c: char, what: Expected)
    requires
        agree(t1, t2, p, e, d),
    ensures
        sp_punct(t2, p + d, e + d, c, what) == sh_pos(sp_punct(t1, p, e, c, what), d),
        sp_fat_arrow(t2, p + d, e + d) == sh_pos(sp_fat_arrow(t1, p, e), d),
{
    lemma_toks_move(t1, t2, p, e, d, p);
    lemma_err_moves(ErrorKind::Expected(what), p, d);
    lemma_err_moves(ErrorKind::Expected(Expected::FatArrow), p, d);
}

/// An integer literal reads the same moved.
pub proof fn lemma_int_moves(t1: Seq<Token>, t2: Seq<Token>, p: int, e: int, d: int)
    requires
        agree(t1, t2, p, e, d),
    ensures
        sp_int(t2, p + d, e + d) == sh_u32(sp_int(t1, p, e), d),
{
    lemma_toks_move(t1, t2, p, e, d, p);
    lemma_err_moves(ErrorKind::Expected(Expected::IntLiteral), p, d);
    lemma_err_moves(ErrorKind::InvalidDigit, p, d);
    lemma_err_moves(ErrorKind::IntTooLarge, p, d);
}


/// Threads read so far, moved by `d`.
pub open spec fn sh_acc(acc: ThreadsAcc, d: int) -> ThreadsAcc {
    (sh_threads(acc.0, d), acc.1, acc.2)
}

proof fn lemma_push_moves(ths: Seq<Thread>, th: Thread, d: int)
    ensures
        sh_threads(ths.push(th), d) == sh_threads(ths, d).push(sh_thread(th, d)),
{
    assert(sh_threads(ths.push(th), d) =~= sh_threads(ths, d).push(sh_thread(th, d)));
}

/// External thread items read the same moved.
proof fn lemma_external_items_moves(t1: Seq<Token>, t2: Seq<Token>, p: int, e: int, d: int, acc: Seq<Thread>)
    requires
        agree(t1, t2, p, e, d),
    ensures
        sp_external_items(t1, p, e, acc) matches Ok(r) ==> sp_external_items(t2, p + d, e + d, sh_threads(acc, d))
            == Ok::<Seq<Thread>, ParseError>(sh_threads(r, d)),
    decreases e - p,
{
    if p < e {
        lemma_attrs_moves(t1, t2, p, e, d);
        lemma_attrs_bounds(t1, p, e);
        if let Ok(a) = sp_attrs(t1, p, e) {
            lemma_agree_from(t1, t2, p, e, d, a, e);
            lemma_int_moves(t1, t2, a, e, d);
            if sp_int(t1, a, e) is Ok {
                lemma_agree_from(t1, t2, p, e, d, a + 1, e);
                lemma_punct_moves(t1, t2, a + 1, e, d, ':', Expected::Colon);
                if let Ok(q1) = sp_punct(t1, a + 1, e, ':', Expected::Colon) {
                    lemma_agree_from(t1, t2, p, e, d, q1, e);
                    lemma_vis_moves(t1, t2, q1, e, d);
                    lemma_vis_bounds(t1, q1, e);
                    if let Ok((v, q2)) = sp_vis(t1, q1, e) {
                        lemma_agree_from(t1, t2, p, e, d, q2, e);
                        lemma_ident_moves(t1, t2, q2, e, d);
                        if let Ok(i) = sp_ident(t1, q2, e) {
                            let num = sp_int(t1, a, e)->Ok_0;
                            let th = Thread::External(
                                num,
                                ThreadSpec { attrs: span(p, a), vis: v, ident: i as usize },
                            );
                            lemma_push_moves(acc, th, d);
                            if i + 1 < e {
                                lemma_agree_from(t1, t2, p, e, d, i + 1, e);
                                lemma_punct_moves(t1, t2, i + 1, e, d, ';', Expected::Semi);
                                if let Ok(q3) = sp_punct(t1, i + 1, e, ';', Expected::Semi) {
                                    lemma_agree_from(t1, t2, p, e, d, q3, e);
                                    lemma_external_items_moves(t1, t2, q3, e, d, acc.push(th));
                                }
                            } else {
                                lemma_agree_from(t1, t2, p, e, d, i + 1, e);
                                lemma_external_items_moves(t1, t2, i + 1, e, d, acc.push(th));
                            }
                        }
                    }
                }
            }
        }
    }
}

/// Software thread items read the same moved.
proof fn lemma_software_items_moves(t1: Seq<Token>, t2: Seq<Token>, p: int, e: int, d: int, acc: Seq<Thread>)
    requires
        agree(t1, t2, p, e, d),
    ensures
        sp_software_items(t1, p, e, acc) matches Ok(r) ==> sp_software_items(t2, p + d, e + d, sh_threads(acc, d))
            == Ok::<Seq<Thread>, ParseError>(sh_threads(r, d)),
    decreases e - p,
{
    if p < e {
        lemma_attrs_moves(t1, t2, p, e, d);
        lemma_attrs_bounds(t1, p, e);
        if let Ok(a) = sp_attrs(t1, p, e) {
            lemma_agree_from(t1, t2, p, e, d, a, e);
            lemma_vis_moves(t1, t2, a, e, d);
            lemma_vis_bounds(t1, a, e);
            if let Ok((v, q2)) = sp_vis(t1, a, e) {
                lemma_agree_from(t1, t2, p, e, d, q2, e);
                lemma_ident_moves(t1, t2, q2, e, d);
                if let Ok(i) = sp_ident(t1, q2, e) {
                    let th = Thread::Software(ThreadSpec { attrs: span(p, a), vis: v, ident: i as usize });
                    lemma_push_moves(acc, th, d);
                    if i + 1 < e {
                        lemma_agree_from(t1, t2, p, e, d, i + 1, e);
                        lemma_punct_moves(t1, t2, i + 1, e, d, ';', Expected::Semi);
                        if let Ok(q3) = sp_punct(t1, i + 1, e, ';', Expected::Semi) {
                            lemma_agree_from(t1, t2, p, e, d, q3, e);
                            lemma_software_items_moves(t1, t2, q3, e, d, acc.push(th));
                        }
                    } else {
                        lemma_agree_from(t1, t2, p, e, d, i + 1, e);
                        lemma_software_items_moves(t1, t2, i + 1, e, d, acc.push(th));
                    }
                }
            }
        }
    }
}

/// An entry of the `threads` section reads the same moved.
#[verifier::spinoff_prover]
#[verifier::rlimit(50)]
proof fn lemma_entry_body_moves(
    t1: Seq<Token>,
    t2: Seq<Token>,
    p: int,
    a: int,
    q: int,
    e: int,
    d: int,
    acc: ThreadsAcc,
)
    requires
        agree(t1, t2, p, e, d),
        p <= a < q <= e,
    ensures
        sp_entry_body(t1, p, a, q, e, acc) matches Ok((acc2, q2)) ==> sp_entry_body(
            t2,
            p + d,
            a + d,
            q + d,
            e + d,
            sh_acc(acc, d),
        ) == Ok::<(ThreadsAcc, int), ParseError>((sh_acc(acc2, d), q2 + d)),
{
    lemma_tok_moves(t1, t2, p, e, d, a);
    lemma_agree_from(t1, t2, p, e, d, q, e);
    lemma_group_moves(t1, t2, q, e, d, Delimiter::Brace, Expected::Braces);
    lemma_group_bounds(t1, q, e, Delimiter::Brace, Expected::Braces);
    if let Ok(c) = sp_group(t1, q, e, Delimiter::Brace, Expected::Braces) {
        lemma_agree_from(t1, t2, p, e, d, q + 1, c);
        lemma_external_items_moves(t1, t2, q + 1, c, d, acc.0);
        lemma_software_items_moves(t1, t2, q + 1, c, d, acc.0);
    }
    lemma_vis_moves(t1, t2, q, e, d);
    lemma_vis_bounds(t1, q, e);
    if let Ok((v, q2)) = sp_vis(t1, q, e) {
        lemma_agree_from(t1, t2, p, e, d, q2, e);
        lemma_ident_moves(t1, t2, q2, e, d);
        if let Ok(i) = sp_ident(t1, q2, e) {
            let s = ThreadSpec { attrs: span(p, a), vis: v, ident: i as usize };
            lemma_push_moves(acc.0, Thread::Exception(s), d);
            lemma_push_moves(acc.0, Thread::Timer(s), d);
        }
    }
}

/// The entries of the `threads` section read the same moved.
proof fn lemma_entries_moves(t1: Seq<Token>, t2: Seq<Token>, p: int, e: int, d: int, acc: ThreadsAcc)
    requires
        agree(t1, t2, p, e, d),
    ensures
        sp_entries(t1, p, e, acc) matches Ok(r) ==> sp_entries(t2, p + d, e + d, sh_acc(acc, d))
            == Ok::<Seq<Thread>, ParseError>(sh_threads(r, d)),
    decreases e - p,
{
    if p < e {
        lemma_attrs_moves(t1, t2, p, e, d);
        lemma_attrs_bounds(t1, p, e);
        if let Ok(a) = sp_attrs(t1, p, e) {
            lemma_agree_from(t1, t2, p, e, d, a, e);
            lemma_ident_moves(t1, t2, a, e, d);
            if sp_ident(t1, a, e) is Ok {
                lemma_agree_from(t1, t2, p, e, d, a + 1, e);
                lemma_punct_moves(t1, t2, a + 1, e, d, ';', Expected::Semi);
                if let Ok(q1) = sp_fat_arrow(t1, a + 1, e) {
                    lemma_entry_body_moves(t1, t2, p, a, q1, e, d, acc);
                    lemma_entry_body_bounds(t1, p, a, q1, e, acc);
                    if let Ok((acc2, q2)) = sp_entry_body(t1, p, a, q1, e, acc) {
                        if q2 < e {
                            lemma_agree_from(t1, t2, p, e, d, q2, e);
                            lemma_punct_moves(t1, t2, q2, e, d, ';', Expected::Semi);
                            if let Ok(q3) = sp_punct(t1, q2, e, ';', Expected::Semi) {
                                lemma_agree_from(t1, t2, p, e, d, q3, e);
                                lemma_entries_moves(t1, t2, q3, e, d, acc2);
                            }
                        } else {
                            lemma_agree_from(t1, t2, p, e, d, q2, e);
                            lemma_entries_moves(t1, t2, q2, e, d, acc2);
                        }
                    }
                }
            }
        }
    }
}

// ---------------------------------------------------------------------------
// Reading on past the end
// ---------------------------------------------------------------------------

/// The token at `x`, before the end `e`, reads the same moved, whatever
/// follows the range.
proof fn lemma_tok_ext(t1: Seq<Token>, t2: Seq<Token>, p: int, e: int, d: int, e2: int, x: int)
    requires
        agree(t1, t2, p, e, d),
        e + d <= e2 <= t2.len(),
        p <= x < e,
    ensures
        tok(t2, x + d, e2) == tok(t1, x, e),
{
    assert(t2[x + d] == t1[x]);
}

/// An identifier read in a range reads the same moved, whatever follows the
/// range.
pub proof fn lemma_ident_ext(t1: Seq<Token>, t2: Seq<Token>, p: int, e: int, d: int, e2: int)
    requires
        agree(t1, t2, p, e, d),
        e + d <= e2 <= t2.len(),
    ensures
        sp_ident(t1, p, e) matches Ok(i) ==> sp_ident(t2, p + d, e2) == Ok::<int, ParseError>(i + d),
{
    if p < e {
        lemma_tok_ext(t1, t2, p, e, d, e2, p);
    }
}

/// `=>` read in a range reads the same moved, whatever follows the range.
pub proof fn lemma_fat_arrow_ext(t1: Seq<Token>, t2: Seq<Token>, p: int, e: int, d: int, e2: int)
    requires
        agree(t1, t2, p, e, d),
        e + d <= e2 <= t2.len(),
    ensures
        sp_fat_arrow(t1, p, e) matches Ok(q) ==> sp_fat_arrow(t2, p + d, e2) == Ok::<int, ParseError>(q + d),
{
    if p + 1 < e {
        lemma_tok_ext(t1, t2, p, e, d, e2, p);
        lemma_tok_ext(t1, t2, p, e, d, e2, p + 1);
    }
}

/// A group read in a range reads the same moved, whatever follows the range.
pub proof fn lemma_group_ext(
    t1: Seq<Token>,
    t2: Seq<Token>,
    p: int,
    e: int,
    d: int,
    e2: int,
    dl: Delimiter,
    what: Expected,
)
    requires
        agree(t1, t2, p, e, d),
        e + d <= e2 <= t2.len(),
    ensures
        sp_group(t1, p, e, dl, what) matches Ok(c) ==> sp_group(t2, p + d, e2, dl, what) == Ok::<
            int,
            ParseError,
        >(c + d),
{
    lemma_group_bounds(t1, p, e, dl, what);
    if let Ok(c) = sp_group(t1, p, e, dl, what) {
        lemma_tok_ext(t1, t2, p, e, d, e2, p);
        lemma_agree_from(t1, t2, p, e, d, p + 1, e);
        lemma_close_moves(t1, t2, p + 1, e, d, 0);
    }
}

/// Attributes read in a range and followed by more of it read the same
/// moved, whatever follows the range.
pub proof fn lemma_attrs_ext(t1: Seq<Token>, t2: Seq<Token>, p: int, e: int, d: int, e2: int)
    requires
        agree(t1, t2, p, e, d),
        e + d <= e2 <= t2.len(),
    ensures
        sp_attrs(t1, p, e) matches Ok(a) ==> (a < e ==> sp_attrs(t2, p + d, e2) == Ok::<int, ParseError>(
            a + d,
        )),
    decreases e - p,
{
    if p < e {
        lemma_tok_ext(t1, t2, p, e, d, e2, p);
        if punct_is(t1, p, e, '#') {
            lemma_agree_from(t1, t2, p, e, d, p + 1, e);
            lemma_group_ext(t1, t2, p + 1, e, d, e2, Delimiter::Bracket, Expected::Brackets);
            lemma_group_bounds(t1, p + 1, e, Delimiter::Bracket, Expected::Brackets);
            if let Ok(c) = sp_group(t1, p + 1, e, Delimiter::Bracket, Expected::Brackets) {
                lemma_agree_from(t1, t2, p, e, d, p + 2, c);
                lemma_mod_path_moves(t1, t2, p + 2, c, d);
                lemma_agree_from(t1, t2, p, e, d, c + 1, e);
                lemma_attrs_ext(t1, t2, c + 1, e, d, e2);
            }
        }
    }
}

/// A visibility read in a range and followed by an identifier in it reads
/// the same moved, whatever follows the range.
pub proof fn lemma_vis_ext(t1: Seq<Token>, t2: Seq<Token>, p: int, e: int, d: int, e2: int)
    requires
        agree(t1, t2, p, e, d),
        e + d <= e2 <= t2.len(),
    ensures
        sp_vis(t1, p, e) matches Ok((v, q)) ==> (sp_ident(t1, q, e) is Ok ==> sp_vis(t2, p + d, e2)
            == Ok::<(Vis, int), ParseError>((sh_vis(v, d), q + d))),
{
    lemma_vis_bounds(t1, p, e);
    if let Ok((v, q)) = sp_vis(t1, p, e) {
        if sp_ident(t1, q, e) is Ok {
            lemma_tok_ext(t1, t2, p, e, d, e2, p);
            if p + 1 < e {
                lemma_tok_ext(t1, t2, p, e, d, e2, p + 1);
            }
            if p + 2 < e {
                lemma_tok_ext(t1, t2, p, e, d, e2, p + 2);
            }
            if ident_is(t1, p, e, "pub"@) && open_is(t1, p + 1, e, Delimiter::Parenthesis) {
                lemma_agree_from(t1, t2, p, e, d, p + 1, e);
                lemma_group_ext(t1, t2, p + 1, e, d, e2, Delimiter::Parenthesis, Expected::Parens);
                lemma_group_bounds(t1, p + 1, e, Delimiter::Parenthesis, Expected::Parens);
                if let Ok(c) = sp_group(t1, p + 1, e, Delimiter::Parenthesis, Expected::Parens) {
                    lemma_agree_from(t1, t2, p, e, d, p + 2, c);
                    lemma_toks_move(t1, t2, p + 2, c, d, p + 2);
                    if p + 3 <= c {
                        lemma_agree_from(t1, t2, p, e, d, p + 3, c);
                        lemma_mod_path_moves(t1, t2, p + 3, c, d);
                        lemma_mod_path_bounds(t1, p + 3, c);
                    }
                }
            }
        }
    }
}

/// A `thread` or `local` body read in a range reads the same moved,
/// whatever follows the range.
pub proof fn lemma_block_ext(t1: Seq<Token>, t2: Seq<Token>, p: int, e: int, d: int, e2: int, at: Span)
    requires
        agree(t1, t2, p, e, d),
        e + d <= e2 <= t2.len(),
    ensures
        sp_block(t1, p, e, at) matches Ok((b, q)) ==> sp_block(t2, p + d, e2, sh_span(at, d)) == Ok::<
            (Block, int),
            ParseError,
        >((sh_block(b, d), q + d)),
{
    lemma_vis_ext(t1, t2, p, e, d, e2);
    lemma_vis_bounds(t1, p, e);
    if let Ok((v, q1)) = sp_vis(t1, p, e) {
        lemma_agree_from(t1, t2, p, e, d, q1, e);
        lemma_ident_ext(t1, t2, q1, e, d, e2);
        if let Ok(i) = sp_ident(t1, q1, e) {
            lemma_agree_from(t1, t2, p, e, d, i + 1, e);
            lemma_group_ext(t1, t2, i + 1, e, d, e2, Delimiter::Brace, Expected::Braces);
            lemma_group_bounds(t1, i + 1, e, Delimiter::Brace, Expected::Braces);
        }
    }
}

/// An `index` or `init` body read in a range reads the same moved,
/// whatever follows the range.
pub proof fn lemma_decl_ext(t1: Seq<Token>, t2: Seq<Token>, p: int, e: int, d: int, e2: int, at: Span)
    requires
        agree(t1, t2, p, e, d),
        e + d <= e2 <= t2.len(),
    ensures
        sp_decl(t1, p, e, at) matches Ok((x, q)) ==> sp_decl(t2, p + d, e2, sh_span(at, d)) == Ok::<
            (Decl, int),
            ParseError,
        >((sh_decl(x, d), q + d)),
{
    lemma_vis_ext(t1, t2, p, e, d, e2);
    lemma_vis_bounds(t1, p, e);
    if let Ok((v, q1)) = sp_vis(t1, p, e) {
        lemma_agree_from(t1, t2, p, e, d, q1, e);
        lemma_ident_ext(t1, t2, q1, e, d, e2);
    }
}

/// The `threads` body read in a range reads the same moved, whatever
/// follows the range.
#[verifier::spinoff_prover]
#[verifier::rlimit(50)]
pub proof fn lemma_threads_ext(t1: Seq<Token>, t2: Seq<Token>, p: int, e: int, d: int, e2: int)
    requires
        agree(t1, t2, p, e, d),
        e + d <= e2 <= t2.len(),
    ensures
        sp_threads(t1, p, e) matches Ok((ths, q)) ==> sp_threads(t2, p + d, e2) == Ok::<
            (Seq<Thread>, int),
            ParseError,
        >((sh_threads(ths, d), q + d)),
{
    lemma_group_ext(t1, t2, p, e, d, e2, Delimiter::Brace, Expected::Braces);
    lemma_group_bounds(t1, p, e, Delimiter::Brace, Expected::Braces);
    if let Ok(c) = sp_group(t1, p, e, Delimiter::Brace, Expected::Braces) {
        lemma_agree_from(t1, t2, p, e, d, p + 1, c);
        let none: ThreadsAcc = (Seq::empty(), false, false);
        assert(sh_threads(Seq::<Thread>::empty(), d) =~= Seq::<Thread>::empty());
        lemma_entries_moves(t1, t2, p + 1, c, d, none);
    }
}

// ---------------------------------------------------------------------------
// Sections standing alone
// ---------------------------------------------------------------------------

/// A section standing alone, as tokens: its attributes, its word, `=>` and
/// its body, which ends where the tokens end. Which section it is and what
/// it holds; none when the tokens are not one whole section.
#[verifier::opaque]
pub open spec fn section_of(s: Seq<Token>) -> Option<(Section, SectionValue)> {
    let n = s.len() as int;
    match sp_attrs(s, 0, n) {
        Err(_) => None,
        Ok(a) => if sp_ident(s, a, n) is Ok && sp_fat_arrow(s, a + 1, n) is Ok {
            match section_at(s, 0, a, n) {
                None => None,
                Some(sec) => match sp_section_value(s, 0, a, a + 3, n, sec) {
                    Ok((v, q)) => if q == n {
                        Some((sec, v))
                    } else {
                        None
                    },
                    Err(_) => None,
                },
            }
        } else {
            None
        },
    }
}

/// The section that the tokens `s` stand for.
pub open spec fn kind_of(s: Seq<Token>) -> Section {
    section_of(s).unwrap().0
}

/// What the section that the tokens `s` stand for holds.
pub open spec fn value_of(s: Seq<Token>) -> SectionValue {
    section_of(s).unwrap().1
}

/// What a section holds, moved by `d`.
pub open spec fn sh_value(v: SectionValue, d: int) -> SectionValue {
    match v {
        SectionValue::Block(b) => SectionValue::Block(sh_block(b, d)),
        SectionValue::Decl(x) => SectionValue::Decl(sh_decl(x, d)),
        SectionValue::Threads(ths) => SectionValue::Threads(sh_threads(ths, d)),
    }
}

/// A section standing alone, placed at `off` among other tokens and read
/// there, fills its own section with what it holds moved by `off`, and the
/// reading goes on just after it.
#[verifier::spinoff_prover]
#[verifier::rlimit(50)]
proof fn lemma_section_placed(s: Seq<Token>, t: Seq<Token>, off: int, n: int, st: SectionsView)
    requires
        agree(s, t, 0, s.len() as int, off),
        s.len() + off <= n <= t.len(),
        section_of(s) is Some,
        !filled(st, kind_of(s)),
    ensures
        0 < s.len(),
        sp_items(t, off, n, st) == if off + s.len() < n {
            match sp_punct(t, off + s.len(), n, ';', Expected::Semi) {
                Err(x) => Err(x),
                Ok(q3) => sp_items(t, q3, n, fill(st, kind_of(s), sh_value(value_of(s), off))),
            }
        } else {
            sp_items(t, off + s.len(), n, fill(st, kind_of(s), sh_value(value_of(s), off)))
        },
{
    reveal(section_of);
    let m = s.len() as int;
    let a = sp_attrs(s, 0, m)->Ok_0;
    let sec = kind_of(s);
    lemma_attrs_bounds(s, 0, m);
    lemma_attrs_ext(s, t, 0, m, off, n);
    lemma_agree_from(s, t, 0, m, off, a, m);
    lemma_ident_ext(s, t, a, m, off, n);
    lemma_agree_from(s, t, 0, m, off, a + 1, m);
    lemma_fat_arrow_ext(s, t, a + 1, m, off, n);
    lemma_tok_ext(s, t, 0, m, off, n, a);
    assert(section_at(t, off, a + off, n) == section_at(s, 0, a, m));
    lemma_agree_from(s, t, 0, m, off, a + 3, m);
    assert(sh_span(span(0, a), off) == span(off, a + off));
    lemma_block_ext(s, t, a + 3, m, off, n, span(0, a));
    lemma_decl_ext(s, t, a + 3, m, off, n, span(0, a));
    lemma_threads_ext(s, t, a + 3, m, off, n);
    assert(sp_section_value(t, off, a + off, a + 3 + off, n, sec) == Ok::<(SectionValue, int), ParseError>(
        (sh_value(value_of(s), off), m + off),
    ));
    lemma_section_reading(t, off, a + off, a + 3 + off, n, st);
    lemma_attrs_bounds(t, off, n);
    lemma_item_body_bounds(t, off, a + off, a + 3 + off, n, st);
}

// ---------------------------------------------------------------------------
// Sections one after another
// ---------------------------------------------------------------------------

/// The `;` between two sections.
pub open spec fn semi() -> Token {
    Token::Punct(';', Spacing::Alone)
}

/// Sections one after another, a `;` between each two.
pub open spec fn join(secs: Seq<Seq<Token>>) -> Seq<Token>
    decreases secs.len(),
{
    if secs.len() == 0 {
        Seq::empty()
    } else if secs.len() == 1 {
        secs[0]
    } else {
        secs[0] + seq![semi()] + join(secs.drop_first())
    }
}

/// Where the `i`-th section starts in `join(secs)`.
pub open spec fn offset(secs: Seq<Seq<Token>>, i: int) -> int
    decreases i,
{
    if i <= 0 || secs.len() == 0 {
        0
    } else {
        secs[0].len() + 1 + offset(secs.drop_first(), i - 1)
    }
}

/// `st` with each of the sections filled in turn, each with what it holds
/// moved by where it starts, the first starting at `off`.
pub open spec fn fill_all(secs: Seq<Seq<Token>>, st: SectionsView, off: int) -> SectionsView
    decreases secs.len(),
{
    if secs.len() == 0 {
        st
    } else {
        fill_all(
            secs.drop_first(),
            fill(st, kind_of(secs[0]), sh_value(value_of(secs[0]), off)),
            off + secs[0].len() + 1,
        )
    }
}

/// Each of the token sequences is a whole section standing alone.
pub open spec fn all_sections(secs: Seq<Seq<Token>>) -> bool {
    forall|i: int| 0 <= i < secs.len() ==> #[trigger] section_of(secs[i]) is Some
}

/// No two of the sections are the same section.
pub open spec fn kinds_distinct(secs: Seq<Seq<Token>>) -> bool {
    forall|i: int, j: int|
        0 <= i < j < secs.len() ==> kind_of(#[trigger] secs[i]) != kind_of(#[trigger] secs[j])
}

/// None of the sections was read in `st` yet.
pub open spec fn none_filled(secs: Seq<Seq<Token>>, st: SectionsView) -> bool {
    forall|i: int| 0 <= i < secs.len() ==> !filled(st, kind_of(#[trigger] secs[i]))
}

/// What follows the last section: a `;` or nothing.
pub open spec fn ending(trail: bool) -> Seq<Token> {
    if trail {
        seq![semi()]
    } else {
        Seq::empty()
    }
}

/// The first of the joined sections stands at `off`; a `;` follows it
/// unless it ends the input, and the other sections follow the `;`.
proof fn lemma_join_split(t: Seq<Token>, off: int, n: int, secs: Seq<Seq<Token>>, trail: bool)
    requires
        1 <= secs.len(),
        0 <= off <= n <= t.len() <= usize::MAX,
        t.subrange(off, n) == join(secs) + ending(trail),
    ensures
        agree(secs[0], t, 0, secs[0].len() as int, off),
        secs.len() == 1 ==> n == off + secs[0].len() + if trail {
            1int
        } else {
            0int
        },
        secs.len() > 1 || trail ==> off + secs[0].len() < n && t[off + secs[0].len()] == semi(),
        secs.len() > 1 ==> t.subrange(off + secs[0].len() + 1, n) == join(secs.drop_first())
            + ending(trail),
{
    let s0 = secs[0];
    let m = s0.len() as int;
    let rest = secs.drop_first();
    let whole = join(secs) + ending(trail);
    if secs.len() > 1 {
        assert(join(secs) == s0 + seq![semi()] + join(rest));
        assert(whole =~= s0 + seq![semi()] + (join(rest) + ending(trail)));
    } else {
        assert(whole =~= s0 + ending(trail));
    }
    assert(n - off == whole.len());
    assert forall|k: int| 0 <= k < m implies t[k + off] == #[trigger] s0[k] by {
        assert(t.subrange(off, n)[k] == t[off + k]);
        assert(whole[k] == s0[k]);
    }
    if secs.len() > 1 || trail {
        assert(t.subrange(off, n)[m] == t[off + m]);
        assert(whole[m] == semi());
    }
    if secs.len() > 1 {
        assert(t.subrange(off + m + 1, n) =~= join(rest) + ending(trail)) by {
            assert forall|k: int| 0 <= k < n - (off + m + 1) implies t.subrange(off + m + 1, n)[k]
                == (join(rest) + ending(trail))[k] by {
                assert(t.subrange(off, n)[m + 1 + k] == t[off + m + 1 + k]);
                assert(whole[m + 1 + k] == (join(rest) + ending(trail))[k]);
            }
        }
    }
}

/// After the first of several whole sections, each a different one, is
/// read, the others are whole, each a different one, and not read yet.
proof fn lemma_rest_unread(secs: Seq<Seq<Token>>, st: SectionsView, off: int)
    requires
        1 <= secs.len(),
        all_sections(secs),
        kinds_distinct(secs),
        none_filled(secs, st),
    ensures
        all_sections(secs.drop_first()),
        kinds_distinct(secs.drop_first()),
        none_filled(
            secs.drop_first(),
            fill(st, kind_of(secs[0]), sh_value(value_of(secs[0]), off)),
        ),
{
    let s0 = secs[0];
    let rest = secs.drop_first();
    let st2 = fill(st, kind_of(s0), sh_value(value_of(s0), off));
    assert forall|i: int| 0 <= i < rest.len() implies #[trigger] section_of(rest[i]) is Some by {
        assert(rest[i] == secs[i + 1]);
    }
    assert forall|i: int, j: int| 0 <= i < j < rest.len() implies kind_of(#[trigger] rest[i])
        != kind_of(#[trigger] rest[j]) by {
        assert(rest[i] == secs[i + 1]);
        assert(rest[j] == secs[j + 1]);
    }
    assert forall|i: int| 0 <= i < rest.len() implies !filled(st2, kind_of(#[trigger] rest[i])) by {
        assert(rest[i] == secs[i + 1]);
        assert(kind_of(secs[0]) != kind_of(secs[i + 1]));
        assert(!filled(st, kind_of(secs[i + 1])));
        lemma_fill_commutes(
            st,
            kind_of(s0),
            sh_value(value_of(s0), off),
            kind_of(rest[i]),
            sh_value(value_of(s0), off),
        );
    }
}

/// Whole sections, each a different one, read one after another with `;`
/// between them, and after the last if `trail`, fill each its own section.
#[verifier::spinoff_prover]
#[verifier::rlimit(80)]
proof fn lemma_items_join(
    t: Seq<Token>,
    off: int,
    n: int,
    secs: Seq<Seq<Token>>,
    trail: bool,
    st: SectionsView,
)
    requires
        1 <= secs.len(),
        all_sections(secs),
        kinds_distinct(secs),
        none_filled(secs, st),
        0 <= off <= n <= t.len() <= usize::MAX,
        t.subrange(off, n) == join(secs) + ending(trail),
    ensures
        sp_items(t, off, n, st) == Ok::<SectionsView, ParseError>(fill_all(secs, st, off)),
    decreases secs.len(),
{
    let s0 = secs[0];
    let m = s0.len() as int;
    let rest = secs.drop_first();
    assert(section_of(secs[0]) is Some);
    assert(!filled(st, kind_of(secs[0])));
    lemma_join_split(t, off, n, secs, trail);
    lemma_section_placed(s0, t, off, n, st);
    let st2 = fill(st, kind_of(s0), sh_value(value_of(s0), off));
    if secs.len() == 1 {
        assert(rest.len() == 0);
        assert(fill_all(rest, st2, off + m + 1) == st2);
        if trail {
            assert(sp_punct(t, off + m, n, ';', Expected::Semi) == Ok::<int, ParseError>(n));
        }
        assert(sp_items(t, n, n, st2) == Ok::<SectionsView, ParseError>(st2));
    } else {
        lemma_rest_unread(secs, st, off);
        lemma_items_join(t, off + m + 1, n, rest, trail, st2);
        assert(sp_punct(t, off + m, n, ';', Expected::Semi) == Ok::<int, ParseError>(off + m + 1));
    }
}

/// What `st` holds for section `sec`, once read.
pub open spec fn field(st: SectionsView, sec: Section) -> Option<SectionValue> {
    match sec {
        Section::Thread => match st.thr {
            Some(b) => Some(SectionValue::Block(b)),
            None => None,
        },
        Section::Local => match st.local {
            Some(b) => Some(SectionValue::Block(b)),
            None => None,
        },
        Section::Index => match st.index {
            Some(x) => Some(SectionValue::Decl(x)),
            None => None,
        },
        Section::Init => match st.init {
            Some(x) => Some(SectionValue::Decl(x)),
            None => None,
        },
        Section::Threads => match st.threads {
            Some(ths) => Some(SectionValue::Threads(ths)),
            None => None,
        },
    }
}

/// `v` is what a section `sec` holds: a block, a declaration or threads.
pub open spec fn fits(sec: Section, v: SectionValue) -> bool {
    match sec {
        Section::Thread | Section::Local => v is Block,
        Section::Index | Section::Init => v is Decl,
        Section::Threads => v is Threads,
    }
}

proof fn lemma_section_fits(s: Seq<Token>, d: int)
    requires
        section_of(s) is Some,
    ensures
        fits(kind_of(s), value_of(s)),
        fits(kind_of(s), sh_value(value_of(s), d)),
{
    reveal(section_of);
}

proof fn lemma_fill_field(st: SectionsView, sec: Section, v: SectionValue, sec2: Section)
    requires
        fits(sec, v),
    ensures
        field(fill(st, sec, v), sec2) == if sec2 == sec {
            Some(v)
        } else {
            field(st, sec2)
        },
{
}

proof fn lemma_fill_all_other(secs: Seq<Seq<Token>>, st: SectionsView, off: int, sec: Section)
    requires
        all_sections(secs),
        forall|i: int| 0 <= i < secs.len() ==> kind_of(#[trigger] secs[i]) != sec,
    ensures
        field(fill_all(secs, st, off), sec) == field(st, sec),
    decreases secs.len(),
{
    if secs.len() > 0 {
        let rest = secs.drop_first();
        assert(section_of(secs[0]) is Some);
        assert(kind_of(secs[0]) != sec);
        lemma_section_fits(secs[0], off);
        lemma_fill_field(st, kind_of(secs[0]), sh_value(value_of(secs[0]), off), sec);
        assert forall|i: int| 0 <= i < rest.len() implies #[trigger] section_of(rest[i]) is Some by {
            assert(rest[i] == secs[i + 1]);
        }
        assert forall|i: int| 0 <= i < rest.len() implies kind_of(#[trigger] rest[i]) != sec by {
            assert(rest[i] == secs[i + 1]);
        }
        lemma_fill_all_other(
            rest,
            fill(st, kind_of(secs[0]), sh_value(value_of(secs[0]), off)),
            off + secs[0].len() + 1,
            sec,
        );
    }
}

/// After the sections are read in turn, each section holds what it holds
/// alone, moved to where it starts.
proof fn lemma_fill_all_field(secs: Seq<Seq<Token>>, st: SectionsView, off: int, i: int)
    requires
        all_sections(secs),
        kinds_distinct(secs),
        0 <= i < secs.len(),
    ensures
        field(fill_all(secs, st, off), kind_of(secs[i])) == Some(
            sh_value(value_of(secs[i]), off + offset(secs, i)),
        ),
    decreases secs.len(),
{
    let rest = secs.drop_first();
    let st2 = fill(st, kind_of(secs[0]), sh_value(value_of(secs[0]), off));
    let off2 = off + secs[0].len() + 1;
    assert(section_of(secs[0]) is Some);
    lemma_section_fits(secs[0], off);
    assert forall|j: int| 0 <= j < rest.len() implies #[trigger] section_of(rest[j]) is Some by {
        assert(rest[j] == secs[j + 1]);
    }
    if i == 0 {
        lemma_fill_field(st, kind_of(secs[0]), sh_value(value_of(secs[0]), off), kind_of(secs[0]));
        assert forall|j: int| 0 <= j < rest.len() implies kind_of(#[trigger] rest[j]) != kind_of(secs[0]) by {
            assert(rest[j] == secs[j + 1]);
        }
        lemma_fill_all_other(rest, st2, off2, kind_of(secs[0]));
    } else {
        assert forall|a: int, b: int| 0 <= a < b < rest.len() implies kind_of(#[trigger] rest[a])
            != kind_of(#[trigger] rest[b]) by {
            assert(rest[a] == secs[a + 1]);
            assert(rest[b] == secs[b + 1]);
        }
        assert(rest[i - 1] == secs[i]);
        lemma_fill_all_field(rest, st2, off2, i - 1);
    }
}

// ---------------------------------------------------------------------------
// Any order
// ---------------------------------------------------------------------------

/// The five sections of a `thr::clint!` input, each standing alone: the
/// `thread`, `local`, `index`, `init` and `threads` sections, in this order.
pub open spec fn five_sections(secs: Seq<Seq<Token>>) -> bool {
    &&& secs.len() == 5
    &&& all_sections(secs)
    &&& kind_of(secs[0]) == Section::Thread
    &&& kind_of(secs[1]) == Section::Local
    &&& kind_of(secs[2]) == Section::Index
    &&& kind_of(secs[3]) == Section::Init
    &&& kind_of(secs[4]) == Section::Threads
}

/// `order` lists each of `0..n` once.
pub open spec fn is_order(order: Seq<int>, n: int) -> bool {
    &&& order.len() == n
    &&& forall|i: int| 0 <= i < n ==> 0 <= #[trigger] order[i] < n
    &&& forall|i: int, j: int| 0 <= i < j < n ==> #[trigger] order[i] != #[trigger] order[j]
    &&& forall|k: int| 0 <= k < n ==> #[trigger] listed(order, k)
}

/// `order` lists `k`.
pub open spec fn listed(order: Seq<int>, k: int) -> bool {
    exists|i: int| 0 <= i < order.len() && order[i] == k
}

/// The sections in the order that `order` lists them.
pub open spec fn arranged(secs: Seq<Seq<Token>>, order: Seq<int>) -> Seq<Seq<Token>> {
    Seq::new(order.len(), |i: int| secs[order[i]])
}

/// Where `order` lists `k`.
pub open spec fn position(order: Seq<int>, k: int) -> int {
    choose|i: int| 0 <= i < order.len() && order[i] == k
}

/// The block a section holds.
pub open spec fn block_in(v: SectionValue) -> Block {
    match v {
        SectionValue::Block(b) => b,
        _ => arbitrary(),
    }
}

/// The declaration a section holds.
pub open spec fn decl_in(v: SectionValue) -> Decl {
    match v {
        SectionValue::Decl(x) => x,
        _ => arbitrary(),
    }
}

/// The threads a section holds.
pub open spec fn threads_in(v: SectionValue) -> Seq<Thread> {
    match v {
        SectionValue::Threads(ths) => ths,
        _ => arbitrary(),
    }
}

/// The five sections as each reads standing alone.
pub open spec fn alone(secs: Seq<Seq<Token>>) -> InputView {
    InputView {
        thr: block_in(value_of(secs[0])),
        local: block_in(value_of(secs[1])),
        index: decl_in(value_of(secs[2])),
        init: decl_in(value_of(secs[3])),
        threads: threads_in(value_of(secs[4])),
    }
}

/// The five sections as read in the order that `order` lists them: each as
/// it reads alone, moved to where it starts.
pub open spec fn placed(secs: Seq<Seq<Token>>, order: Seq<int>) -> InputView {
    let arr = arranged(secs, order);
    let u = alone(secs);
    InputView {
        thr: sh_block(u.thr, offset(arr, position(order, 0))),
        local: sh_block(u.local, offset(arr, position(order, 1))),
        index: sh_decl(u.index, offset(arr, position(order, 2))),
        init: sh_decl(u.init, offset(arr, position(order, 3))),
        threads: sh_threads(u.threads, offset(arr, position(order, 4))),
    }
}

proof fn lemma_threads_leftover_moves(ths: Seq<Thread>, d: int, i: int)
    ensures
        threads_leftover(sh_threads(ths, d), i) is Some <==> threads_leftover(ths, i) is Some,
    decreases ths.len() - i,
{
    if 0 <= i < ths.len() {
        assert(sh_threads(ths, d)[i] == sh_thread(ths[i], d));
        lemma_threads_leftover_moves(ths, d, i + 1);
    }
}

/// The input made of the sections in the order that `order` lists them,
/// `;` between each two, and after the last if `trail`.
pub open spec fn input_of(secs: Seq<Seq<Token>>, order: Seq<int>, trail: bool) -> Seq<Token> {
    join(arranged(secs, order)) + ending(trail)
}

/// Read in any order, the sections are read as each reads alone, moved to
/// where it stands; the input is refused exactly when a section standing
/// alone leaves a token unread.
#[verifier::spinoff_prover]
#[verifier::rlimit(80)]
pub proof fn lemma_sections_in_order(secs: Seq<Seq<Token>>, order: Seq<int>, trail: bool)
    requires
        five_sections(secs),
        is_order(order, 5),
        input_of(secs, order, trail).len() <= usize::MAX,
    ensures
        sp_parse(input_of(secs, order, trail)) is Ok <==> input_leftover(alone(secs)) is None,
        sp_parse(input_of(secs, order, trail)) matches Ok(x) ==> x == placed(secs, order),
{
    let arr = arranged(secs, order);
    let t = input_of(secs, order, trail);
    let n = t.len() as int;
    assert forall|i: int| 0 <= i < arr.len() implies #[trigger] section_of(arr[i]) is Some by {
        assert(0 <= order[i] < 5);
        assert(section_of(secs[order[i]]) is Some);
    }
    assert forall|i: int, j: int| 0 <= i < j < arr.len() implies kind_of(#[trigger] arr[i]) != kind_of(
        #[trigger] arr[j],
    ) by {
        assert(0 <= order[i] < 5);
        assert(0 <= order[j] < 5);
        assert(order[i] != order[j]);
    }
    assert(t.subrange(0, n) =~= t);
    lemma_items_join(t, 0, n, arr, trail, no_sections());
    let st = fill_all(arr, no_sections(), 0);
    assert forall|k: int| 0 <= k < 5 implies field(st, kind_of(secs[k])) == Some(
        sh_value(value_of(secs[k]), offset(arr, position(order, k))),
    ) by {
        assert(listed(order, k));
        let pos = position(order, k);
        assert(arr[pos] == secs[k]);
        lemma_fill_all_field(arr, no_sections(), 0, pos);
    }
    assert(section_of(secs[0]) is Some);
    assert(section_of(secs[1]) is Some);
    assert(section_of(secs[2]) is Some);
    assert(section_of(secs[3]) is Some);
    assert(section_of(secs[4]) is Some);
    lemma_section_fits(secs[0], 0);
    lemma_section_fits(secs[1], 0);
    lemma_section_fits(secs[2], 0);
    lemma_section_fits(secs[3], 0);
    lemma_section_fits(secs[4], 0);
    let u = alone(secs);
    assert(field(st, Section::Thread) == Some(sh_value(value_of(secs[0]), offset(arr, position(order, 0)))));
    assert(field(st, Section::Local) == Some(sh_value(value_of(secs[1]), offset(arr, position(order, 1)))));
    assert(field(st, Section::Index) == Some(sh_value(value_of(secs[2]), offset(arr, position(order, 2)))));
    assert(field(st, Section::Init) == Some(sh_value(value_of(secs[3]), offset(arr, position(order, 3)))));
    assert(field(st, Section::Threads) == Some(sh_value(value_of(secs[4]), offset(arr, position(order, 4)))));
    let x = placed(secs, order);
    assert(st.thr == Some(x.thr));
    assert(st.local == Some(x.local));
    assert(st.index == Some(x.index));
    assert(st.init == Some(x.init));
    assert(st.threads == Some(x.threads));
    lemma_threads_leftover_moves(u.threads, offset(arr, position(order, 4)), 0);
    assert(input_leftover(x) is Some <==> input_leftover(u) is Some);
}

/// The sections of a `thr::clint!` input may be given in any order. Two
/// inputs made of the same five whole sections with `;` between them (and
/// after the last, or not), in any two orders, are both read or both
/// refused; read, both hold each section as it reads standing alone, moved
/// to where it stands in each.
pub proof fn lemma_sections_any_order(
    secs: Seq<Seq<Token>>,
    o1: Seq<int>,
    trail1: bool,
    o2: Seq<int>,
    trail2: bool,
)
    requires
        five_sections(secs),
        is_order(o1, 5),
        is_order(o2, 5),
        input_of(secs, o1, trail1).len() <= usize::MAX,
        input_of(secs, o2, trail2).len() <= usize::MAX,
    ensures
        sp_parse(input_of(secs, o1, trail1)) is Ok <==> sp_parse(input_of(secs, o2, trail2)) is Ok,
        sp_parse(input_of(secs, o1, trail1)) matches Ok(x) ==> x == placed(secs, o1),
        sp_parse(input_of(secs, o2, trail2)) matches Ok(y) ==> y == placed(secs, o2),
{
    lemma_sections_in_order(secs, o1, trail1);
    lemma_sections_in_order(secs, o2, trail2);
}

} // verus!
