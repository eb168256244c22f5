//! The `thr!` macro: its input grammar, the numbering of its threads, and the
//! tables that its expansion is made of.
//!
//! The input is
//!
//! ```text
//! #[attrs] thread => vis Thr { fields... };
//! #[attrs] local => vis ThrLocal { fields... };
//! #[attrs] index => vis Thrs;
//! #[attrs] init => vis ThrsInit;
//! threads => {
//!     exception => vis [outer(path) | naked(path)] name,
//!     timer => vis [...] name,
//!     external => { #[attrs] 1: vis [...] name, ... },
//!     software => { #[attrs] vis [...] name, ... },
//! };
//! ```

use vstd::prelude::*;
use crate::names::{pascal_case, snake_case, to_pascal_case, to_snake_case};
use crate::syntax::{
    arrow, attrs, expr_path, group, ident, ident_is, ident_str, ident_text, int_lit, is_ident,
    keyword_ident, lemma_attrs_bounds, lemma_group_bounds, lemma_vis_bounds,
    punct, punct_is, sp_attrs, sp_expr_path, sp_fat_arrow, sp_group, sp_ident, sp_int, sp_keyword, sp_punct,
    sp_vis, vis, vpos, vpos_within, Vis,
};
use crate::token::{err, mk_err, Delimiter, ErrorKind, Expected, ParseError, Section, Span, Token};

verus! {

// ---------------------------------------------------------------------------
// The parsed input
// ---------------------------------------------------------------------------

/// The path of an `outer(..)` or `naked(..)` handler: its tokens, and the
/// first token left unread inside the parentheses, which makes the whole
/// input fail in the end.
#[derive(PartialEq, Eq, Structural, Clone, Copy, Debug)]
pub struct PathArg {
    pub path: Span,
    pub leftover: Option<usize>,
}

/// How a thread's interrupt handler is made.
#[derive(PartialEq, Eq, Structural, Clone, Copy, Debug)]
pub enum ThreadKind {
    /// A generated handler resumes the thread's fiber chain.
    Inner,
    /// A generated handler calls the function at the path.
    Outer(PathArg),
    /// The function at the path is the handler; the thread gets no number.
    Naked(PathArg),
}

/// One thread: its attributes, visibility, kind and the position of its
/// name.
#[derive(PartialEq, Eq, Structural, Clone, Copy, Debug)]
pub struct ThreadSpec {
    pub attrs: Span,
    pub vis: Vis,
    pub kind: ThreadKind,
    pub ident: usize,
}

/// A thread and the interrupt it serves.
#[derive(PartialEq, Eq, Structural, Clone, Copy, Debug)]
pub enum Thread {
    /// Synchronous exceptions.
    Exception(ThreadSpec),
    /// The machine timer interrupt.
    Timer(ThreadSpec),
    /// The external interrupt with this PLIC source number.
    External(u32, ThreadSpec),
    /// No interrupt: woken by software.
    Software(ThreadSpec),
}

/// The specification of a thread, whatever interrupt it serves.
pub open spec fn thread_spec(th: Thread) -> ThreadSpec {
    match th {
        Thread::Exception(s) => s,
        Thread::Timer(s) => s,
        Thread::External(_, s) => s,
        Thread::Software(s) => s,
    }
}

/// The specification of a thread.
pub fn spec_of(th: &Thread) -> (r: ThreadSpec)
    ensures
        r == thread_spec(*th),
{
    match th {
        Thread::Exception(s) => *s,
        Thread::Timer(s) => *s,
        Thread::External(_, s) => *s,
        Thread::Software(s) => *s,
    }
}

/// A `thread` or `local` section: attributes, visibility, name and the
/// tokens inside its braces.
#[derive(PartialEq, Eq, Structural, Clone, Copy, Debug)]
pub struct Block {
    pub attrs: Span,
    pub vis: Vis,
    pub ident: usize,
    pub tokens: Span,
}

/// An `index` or `init` section: attributes, visibility and name.
#[derive(PartialEq, Eq, Structural, Clone, Copy, Debug)]
pub struct Decl {
    pub attrs: Span,
    pub vis: Vis,
    pub ident: usize,
}

/// The parsed input of `thr!`.
pub struct Input {
    pub thr: Block,
    pub local: Block,
    pub index: Decl,
    pub init: Decl,
    pub threads: Vec<Thread>,
}

/// The parsed input as a spec value.
pub struct InputView {
    pub thr: Block,
    pub local: Block,
    pub index: Decl,
    pub init: Decl,
    pub threads: Seq<Thread>,
}

impl View for Input {
    type V = InputView;

    open spec fn view(&self) -> InputView {
        InputView {
            thr: self.thr,
            local: self.local,
            index: self.index,
            init: self.init,
            threads: self.threads@,
        }
    }
}

/// The range `a..b`.
pub open spec fn span(a: int, b: int) -> Span {
    Span { start: a as usize, end: b as usize }
}

// ---------------------------------------------------------------------------
// Grammar
// ---------------------------------------------------------------------------

/// Reads `(path)` after `outer` or `naked`.
pub open spec fn sp_path_arg(t: Seq<Token>, p: int, e: int) -> Result<(PathArg, int), ParseError> {
    match sp_group(t, p, e, Delimiter::Parenthesis, Expected::Parens) {
        Err(x) => Err(x),
        Ok(c) => match sp_expr_path(t, p + 1, c) {
            Err(x) => Err(x),
            Ok(q) => Ok(
                (
                    PathArg {
                        path: span(p + 1, q),
                        leftover: if q < c {
                            Some(q as usize)
                        } else {
                            None
                        },
                    },
                    c + 1,
                ),
            ),
        },
    }
}

/// Reads a thread kind: `outer(path)`, `naked(path)`, or nothing.
pub open spec fn sp_kind(t: Seq<Token>, p: int, e: int) -> Result<(ThreadKind, int), ParseError> {
    if ident_is(t, p, e, "outer"@) {
        match sp_path_arg(t, p + 1, e) {
            Err(x) => Err(x),
            Ok((a, q)) => Ok((ThreadKind::Outer(a), q)),
        }
    } else if ident_is(t, p, e, "naked"@) {
        match sp_path_arg(t, p + 1, e) {
            Err(x) => Err(x),
            Ok((a, q)) => Ok((ThreadKind::Naked(a), q)),
        }
    } else {
        Ok((ThreadKind::Inner, p))
    }
}

/// Reads `vis kind name` and makes a thread specification with `attrs`.
pub open spec fn sp_tail(t: Seq<Token>, p: int, e: int, attrs: Span) -> Result<
    (ThreadSpec, int),
    ParseError,
> {
    match sp_vis(t, p, e) {
        Err(x) => Err(x),
        Ok((v, q1)) => match sp_kind(t, q1, e) {
            Err(x) => Err(x),
            Ok((k, q2)) => match sp_ident(t, q2, e) {
                Err(x) => Err(x),
                Ok(i) => Ok((ThreadSpec { attrs, vis: v, kind: k, ident: i as usize }, i + 1)),
            },
        },
    }
}

/// A thread's tail ends after it starts, and not after the end.
pub proof fn lemma_tail_bounds(t: Seq<Token>, p: int, e: int, attrs: Span)
    requires
        p <= e,
    ensures
        sp_tail(t, p, e, attrs) matches Ok((_, q)) ==> p < q <= e,
{
    lemma_vis_bounds(t, p, e);
    if let Ok((_, q1)) = sp_vis(t, p, e) {
        lemma_group_bounds(t, q1 + 1, e, Delimiter::Parenthesis, Expected::Parens);
    }
}

/// Reads the items of `external => { ... }` from `p` up to `e`, appending
/// them to `acc`: `#[attrs] number: vis kind name`, separated by commas.
pub open spec fn sp_external_items(t: Seq<Token>, p: int, e: int, acc: Seq<Thread>) -> Result<
    Seq<Thread>,
    ParseError,
>
    decreases e - p,
{
    if p >= e {
        Ok(acc)
    } else {
        match sp_attrs(t, p, e) {
            Err(x) => Err(x),
            Ok(a) => match sp_int(t, a, e) {
                Err(x) => Err(x),
                Ok(num) => match sp_punct(t, a + 1, e, ':', Expected::Colon) {
                    Err(x) => Err(x),
                    Ok(q1) => match sp_tail(t, q1, e, span(p, a)) {
                        Err(x) => Err(x),
                        Ok((s, q2)) => {
                            proof {
                                lemma_attrs_bounds(t, p, e);
                                lemma_tail_bounds(t, q1, e, span(p, a));
                            }
                            let acc2 = acc.push(Thread::External(num, s));
                            if q2 < e {
                                match sp_punct(t, q2, e, ',', Expected::Comma) {
                                    Err(x) => Err(x),
                                    Ok(q3) => sp_external_items(t, q3, e, acc2),
                                }
                            } else {
                                sp_external_items(t, q2, e, acc2)
                            }
                        },
                    },
                },
            },
        }
    }
}

/// Reads the items of `software => { ... }` from `p` up to `e`, appending
/// them to `acc`: `#[attrs] vis kind name`, separated by commas.
pub open spec fn sp_software_items(t: Seq<Token>, p: int, e: int, acc: Seq<Thread>) -> Result<
    Seq<Thread>,
    ParseError,
>
    decreases e - p,
{
    if p >= e {
        Ok(acc)
    } else {
        match sp_attrs(t, p, e) {
            Err(x) => Err(x),
            Ok(a) => match sp_tail(t, a, e, span(p, a)) {
                Err(x) => Err(x),
                Ok((s, q2)) => {
                    proof {
                        lemma_attrs_bounds(t, p, e);
                        lemma_tail_bounds(t, a, e, span(p, a));
                    }
                    let acc2 = acc.push(Thread::Software(s));
                    if q2 < e {
                        match sp_punct(t, q2, e, ',', Expected::Comma) {
                            Err(x) => Err(x),
                            Ok(q3) => sp_software_items(t, q3, e, acc2),
                        }
                    } else {
                        sp_software_items(t, q2, e, acc2)
                    }
                },
            },
        }
    }
}

/// Reads what follows `name =>` in the `threads` section: `p` is where the
/// entry's attributes start, `a` the position of `name`, `q` the position
/// after `=>`.
pub open spec fn sp_entry_body(
    t: Seq<Token>,
    p: int,
    a: int,
    q: int,
    e: int,
    acc: Seq<Thread>,
) -> Result<(Seq<Thread>, int), ParseError> {
    if a == p && ident_is(t, a, e, "external"@) {
        match sp_group(t, q, e, Delimiter::Brace, Expected::Braces) {
            Err(x) => Err(x),
            Ok(c) => match sp_external_items(t, q + 1, c, acc) {
                Err(x) => Err(x),
                Ok(acc2) => Ok((acc2, c + 1)),
            },
        }
    } else if a == p && ident_is(t, a, e, "software"@) {
        match sp_group(t, q, e, Delimiter::Brace, Expected::Braces) {
            Err(x) => Err(x),
            Ok(c) => match sp_software_items(t, q + 1, c, acc) {
                Err(x) => Err(x),
                Ok(acc2) => Ok((acc2, c + 1)),
            },
        }
    } else if ident_is(t, a, e, "exception"@) {
        match sp_tail(t, q, e, span(p, a)) {
            Err(x) => Err(x),
            Ok((s, q2)) => Ok((acc.push(Thread::Exception(s)), q2)),
        }
    } else if ident_is(t, a, e, "timer"@) {
        match sp_tail(t, q, e, span(p, a)) {
            Err(x) => Err(x),
            Ok((s, q2)) => Ok((acc.push(Thread::Timer(s)), q2)),
        }
    } else {
        Err(err(ErrorKind::UnexpectedIdent(a as usize), q))
    }
}

/// An entry body ends after it starts, and not after the end.
pub proof fn lemma_entry_body_bounds(
    t: Seq<Token>,
    p: int,
    a: int,
    q: int,
    e: int,
    acc: Seq<Thread>,
)
    requires
        q <= e,
    ensures
        sp_entry_body(t, p, a, q, e, acc) matches Ok((_, q2)) ==> q < q2 <= e,
{
    lemma_group_bounds(t, q, e, Delimiter::Brace, Expected::Braces);
    lemma_tail_bounds(t, q, e, span(p, a));
}

/// Reads the entries of the `threads` section from `p` up to `e`, appending
/// the threads to `acc`; entries are separated by commas.
pub open spec fn sp_entries(t: Seq<Token>, p: int, e: int, acc: Seq<Thread>) -> Result<
    Seq<Thread>,
    ParseError,
>
    decreases e - p,
{
    if p >= e {
        Ok(acc)
    } else {
        match sp_attrs(t, p, e) {
            Err(x) => Err(x),
            Ok(a) => match sp_ident(t, a, e) {
                Err(x) => Err(x),
                Ok(_) => match sp_fat_arrow(t, a + 1, e) {
                    Err(x) => Err(x),
                    Ok(q1) => match sp_entry_body(t, p, a, q1, e, acc) {
                        Err(x) => Err(x),
                        Ok((acc2, q2)) => {
                            proof {
                                lemma_attrs_bounds(t, p, e);
                                lemma_entry_body_bounds(t, p, a, q1, e, acc);
                            }
                            if q2 < e {
                                match sp_punct(t, q2, e, ',', Expected::Comma) {
                                    Err(x) => Err(x),
                                    Ok(q3) => sp_entries(t, q3, e, acc2),
                                }
                            } else {
                                sp_entries(t, q2, e, acc2)
                            }
                        },
                    },
                },
            },
        }
    }
}

/// Reads `threads => { ... }`.
pub open spec fn sp_threads(t: Seq<Token>, p: int, e: int) -> Result<(Seq<Thread>, int), ParseError> {
    match sp_keyword(t, p, e, "threads"@, Section::Threads) {
        Err(x) => Err(x),
        Ok(q0) => match sp_fat_arrow(t, q0, e) {
            Err(x) => Err(x),
            Ok(q1) => match sp_group(t, q1, e, Delimiter::Brace, Expected::Braces) {
                Err(x) => Err(x),
                Ok(c) => match sp_entries(t, q1 + 1, c, Seq::empty()) {
                    Err(x) => Err(x),
                    Ok(ths) => Ok((ths, c + 1)),
                },
            },
        },
    }
}

/// Reads a `thread` or `local` section: `#[attrs] word => vis Name { ... }`.
pub open spec fn sp_block(t: Seq<Token>, p: int, e: int, w: Seq<char>, sec: Section) -> Result<
    (Block, int),
    ParseError,
> {
    match sp_attrs(t, p, e) {
        Err(x) => Err(x),
        Ok(a) => match sp_keyword(t, a, e, w, sec) {
            Err(x) => Err(x),
            Ok(q1) => match sp_fat_arrow(t, q1, e) {
                Err(x) => Err(x),
                Ok(q2) => match sp_vis(t, q2, e) {
                    Err(x) => Err(x),
                    Ok((v, q3)) => match sp_ident(t, q3, e) {
                        Err(x) => Err(x),
                        Ok(i) => match sp_group(t, i + 1, e, Delimiter::Brace, Expected::Braces) {
                            Err(x) => Err(x),
                            Ok(c) => Ok(
                                (
                                    Block {
                                        attrs: span(p, a),
                                        vis: v,
                                        ident: i as usize,
                                        tokens: span(i + 2, c),
                                    },
                                    c + 1,
                                ),
                            ),
                        },
                    },
                },
            },
        },
    }
}

/// Reads an `index` or `init` section: `#[attrs] word => vis Name`.
pub open spec fn sp_decl(t: Seq<Token>, p: int, e: int, w: Seq<char>, sec: Section) -> Result<
    (Decl, int),
    ParseError,
> {
    match sp_attrs(t, p, e) {
        Err(x) => Err(x),
        Ok(a) => match sp_keyword(t, a, e, w, sec) {
            Err(x) => Err(x),
            Ok(q1) => match sp_fat_arrow(t, q1, e) {
                Err(x) => Err(x),
                Ok(q2) => match sp_vis(t, q2, e) {
                    Err(x) => Err(x),
                    Ok((v, q3)) => match sp_ident(t, q3, e) {
                        Err(x) => Err(x),
                        Ok(i) => Ok((Decl { attrs: span(p, a), vis: v, ident: i as usize }, i + 1)),
                    },
                },
            },
        },
    }
}

/// Reads the five sections in their order, each but the last followed by
/// `;`, and an optional `;` after the last; returns the input and the
/// position where reading stopped.
pub open spec fn sp_sections(t: Seq<Token>) -> Result<(InputView, int), ParseError> {
    let n = t.len() as int;
    match sp_block(t, 0, n, "thread"@, Section::Thread) {
        Err(x) => Err(x),
        Ok((thr, q1)) => match sp_punct(t, q1, n, ';', Expected::Semi) {
            Err(x) => Err(x),
            Ok(q2) => match sp_block(t, q2, n, "local"@, Section::Local) {
                Err(x) => Err(x),
                Ok((local, q3)) => match sp_punct(t, q3, n, ';', Expected::Semi) {
                    Err(x) => Err(x),
                    Ok(q4) => match sp_decl(t, q4, n, "index"@, Section::Index) {
                        Err(x) => Err(x),
                        Ok((index, q5)) => match sp_punct(t, q5, n, ';', Expected::Semi) {
                            Err(x) => Err(x),
                            Ok(q6) => match sp_decl(t, q6, n, "init"@, Section::Init) {
                                Err(x) => Err(x),
                                Ok((init, q7)) => match sp_punct(t, q7, n, ';', Expected::Semi) {
                                    Err(x) => Err(x),
                                    Ok(q8) => match sp_threads(t, q8, n) {
                                        Err(x) => Err(x),
                                        Ok((threads, q9)) => {
                                            let inp = InputView { thr, local, index, init, threads };
                                            if q9 < n {
                                                match sp_punct(t, q9, n, ';', Expected::Semi) {
                                                    Err(x) => Err(x),
                                                    Ok(q10) => Ok((inp, q10)),
                                                }
                                            } else {
                                                Ok((inp, q9))
                                            }
                                        },
                                    },
                                },
                            },
                        },
                    },
                },
            },
        },
    }
}

/// The first of two optional positions.
pub open spec fn first_of(a: Option<usize>, b: Option<usize>) -> Option<usize> {
    match a {
        Some(x) => Some(x),
        None => b,
    }
}

/// The token left unread inside a thread's visibility or handler path.
pub open spec fn thread_leftover(th: Thread) -> Option<usize> {
    let s = thread_spec(th);
    first_of(
        s.vis.leftover,
        match s.kind {
            ThreadKind::Inner => None,
            ThreadKind::Outer(a) => a.leftover,
            ThreadKind::Naked(a) => a.leftover,
        },
    )
}

/// The first token left unread inside the threads from `i` on.
pub open spec fn threads_leftover(ths: Seq<Thread>, i: int) -> Option<usize>
    decreases ths.len() - i,
{
    if i < 0 || i >= ths.len() {
        None
    } else {
        first_of(thread_leftover(ths[i]), threads_leftover(ths, i + 1))
    }
}

/// The first token left unread inside a group, in the order of reading.
pub open spec fn input_leftover(inp: InputView) -> Option<usize> {
    first_of(
        inp.thr.vis.leftover,
        first_of(
            inp.local.vis.leftover,
            first_of(
                inp.index.vis.leftover,
                first_of(inp.init.vis.leftover, threads_leftover(inp.threads, 0)),
            ),
        ),
    )
}

/// The parse of a whole `thr!` input: the sections, then no token left
/// unread inside a group, then none after the sections.
pub open spec fn sp_parse(t: Seq<Token>) -> Result<InputView, ParseError> {
    match sp_sections(t) {
        Err(x) => Err(x),
        Ok((inp, q)) => match input_leftover(inp) {
            Some(u) => Err(err(ErrorKind::UnexpectedToken, u as int)),
            None => if q < t.len() {
                Err(err(ErrorKind::UnexpectedToken, q))
            } else {
                Ok(inp)
            },
        },
    }
}

} // verus!

verus! {

// ---------------------------------------------------------------------------
// Readers
// ---------------------------------------------------------------------------

fn mk_span(a: usize, b: usize) -> (r: Span)
    ensures
        r == span(a as int, b as int),
{
    Span { start: a, end: b }
}

/// Reads `(path)` after `outer` or `naked`.
pub fn path_arg(t: &Vec<Token>, p: usize, e: usize) -> (r: Result<(PathArg, usize), ParseError>)
    requires
        p <= e <= t@.len(),
    ensures
        vpos(r) == sp_path_arg(t@, p as int, e as int),
        vpos_within(r, p as int + 1, e as int),
{
    let c = group(t, p, e, Delimiter::Parenthesis, Expected::Parens)?;
    let q = expr_path(t, p + 1, c)?;
    Ok(
        (
            PathArg {
                path: mk_span(p + 1, q),
                leftover: if q < c {
                    Some(q)
                } else {
                    None
                },
            },
            c + 1,
        ),
    )
}

/// Reads a thread kind.
pub fn kind(t: &Vec<Token>, p: usize, e: usize) -> (r: Result<(ThreadKind, usize), ParseError>)
    requires
        p <= e <= t@.len(),
    ensures
        vpos(r) == sp_kind(t@, p as int, e as int),
        vpos_within(r, p as int, e as int),
{
    if is_ident(t, p, e, "outer") {
        let (a, q) = path_arg(t, p + 1, e)?;
        Ok((ThreadKind::Outer(a), q))
    } else if is_ident(t, p, e, "naked") {
        let (a, q) = path_arg(t, p + 1, e)?;
        Ok((ThreadKind::Naked(a), q))
    } else {
        Ok((ThreadKind::Inner, p))
    }
}

fn tail(t: &Vec<Token>, p: usize, e: usize, attrs: Span) -> (r: Result<(ThreadSpec, usize), ParseError>)
    requires
        p <= e <= t@.len(),
    ensures
        vpos(r) == sp_tail(t@, p as int, e as int, attrs),
        vpos_within(r, p as int + 1, e as int),
{
    let (v, q1) = vis(t, p, e)?;
    let (k, q2) = kind(t, q1, e)?;
    let i = ident(t, q2, e)?;
    Ok((ThreadSpec { attrs, vis: v, kind: k, ident: i }, i + 1))
}

/// The result of a reader that appends to a list of threads.
pub open spec fn appended(
    r: Result<(), ParseError>,
    spec: Result<Seq<Thread>, ParseError>,
    now: Seq<Thread>,
) -> bool {
    match r {
        Ok(_) => spec == Ok::<Seq<Thread>, ParseError>(now),
        Err(x) => spec == Err::<Seq<Thread>, ParseError>(x),
    }
}

fn external_items(t: &Vec<Token>, p: usize, e: usize, threads: &mut Vec<Thread>) -> (r: Result<
    (),
    ParseError,
>)
    requires
        p <= e <= t@.len(),
    ensures
        appended(r, sp_external_items(t@, p as int, e as int, old(threads)@), final(threads)@),
{
    let ghost acc0 = threads@;
    let mut q = p;
    while q < e
        invariant
            p <= q <= e <= t@.len(),
            acc0 == old(threads)@,
            sp_external_items(t@, p as int, e as int, acc0) == sp_external_items(
                t@,
                q as int,
                e as int,
                threads@,
            ),
        decreases e - q,
    {
        let a = attrs(t, q, e)?;
        let num = int_lit(t, a, e)?;
        let q1 = punct(t, a + 1, e, ':', Expected::Colon)?;
        let (s, q2) = tail(t, q1, e, mk_span(q, a))?;
        threads.push(Thread::External(num, s));
        if q2 < e {
            q = punct(t, q2, e, ',', Expected::Comma)?;
        } else {
            q = q2;
        }
    }
    Ok(())
}

fn software_items(t: &Vec<Token>, p: usize, e: usize, threads: &mut Vec<Thread>) -> (r: Result<
    (),
    ParseError,
>)
    requires
        p <= e <= t@.len(),
    ensures
        appended(r, sp_software_items(t@, p as int, e as int, old(threads)@), final(threads)@),
{
    let ghost acc0 = threads@;
    let mut q = p;
    while q < e
        invariant
            p <= q <= e <= t@.len(),
            acc0 == old(threads)@,
            sp_software_items(t@, p as int, e as int, acc0) == sp_software_items(
                t@,
                q as int,
                e as int,
                threads@,
            ),
        decreases e - q,
    {
        let a = attrs(t, q, e)?;
        let (s, q2) = tail(t, a, e, mk_span(q, a))?;
        threads.push(Thread::Software(s));
        if q2 < e {
            q = punct(t, q2, e, ',', Expected::Comma)?;
        } else {
            q = q2;
        }
    }
    Ok(())
}

fn entry_body(
    t: &Vec<Token>,
    p: usize,
    a: usize,
    q: usize,
    e: usize,
    threads: &mut Vec<Thread>,
) -> (r: Result<usize, ParseError>)
    requires
        p <= a < q <= e <= t@.len(),
    ensures
        match r {
            Ok(q2) => sp_entry_body(t@, p as int, a as int, q as int, e as int, old(threads)@)
                == Ok::<(Seq<Thread>, int), ParseError>((final(threads)@, q2 as int)) && q < q2
                <= e,
            Err(x) => sp_entry_body(t@, p as int, a as int, q as int, e as int, old(threads)@)
                == Err::<(Seq<Thread>, int), ParseError>(x),
        },
{
    if a == p && is_ident(t, a, e, "external") {
        let c = group(t, q, e, Delimiter::Brace, Expected::Braces)?;
        external_items(t, q + 1, c, threads)?;
        Ok(c + 1)
    } else if a == p && is_ident(t, a, e, "software") {
        let c = group(t, q, e, Delimiter::Brace, Expected::Braces)?;
        software_items(t, q + 1, c, threads)?;
        Ok(c + 1)
    } else if is_ident(t, a, e, "exception") {
        let (s, q2) = tail(t, q, e, mk_span(p, a))?;
        threads.push(Thread::Exception(s));
        Ok(q2)
    } else if is_ident(t, a, e, "timer") {
        let (s, q2) = tail(t, q, e, mk_span(p, a))?;
        threads.push(Thread::Timer(s));
        Ok(q2)
    } else {
        Err(mk_err(ErrorKind::UnexpectedIdent(a), q))
    }
}

fn entries(t: &Vec<Token>, p: usize, e: usize, threads: &mut Vec<Thread>) -> (r: Result<
    (),
    ParseError,
>)
    requires
        p <= e <= t@.len(),
    ensures
        appended(r, sp_entries(t@, p as int, e as int, old(threads)@), final(threads)@),
{
    let ghost acc0 = threads@;
    let mut q = p;
    while q < e
        invariant
            p <= q <= e <= t@.len(),
            acc0 == old(threads)@,
            sp_entries(t@, p as int, e as int, acc0) == sp_entries(t@, q as int, e as int, threads@),
        decreases e - q,
    {
        let a = attrs(t, q, e)?;
        let _ = ident(t, a, e)?;
        let q1 = arrow(t, a + 1, e)?;
        let q2 = entry_body(t, q, a, q1, e, threads)?;
        if q2 < e {
            q = punct(t, q2, e, ',', Expected::Comma)?;
        } else {
            q = q2;
        }
    }
    Ok(())
}

/// Reads `threads => { ... }`.
pub fn threads_section(t: &Vec<Token>, p: usize, e: usize) -> (r: Result<
    (Vec<Thread>, usize),
    ParseError,
>)
    requires
        p <= e <= t@.len(),
    ensures
        match r {
            Ok((ths, q)) => sp_threads(t@, p as int, e as int) == Ok::<(Seq<Thread>, int), ParseError>(
                (ths@, q as int),
            ) && p <= q <= e,
            Err(x) => sp_threads(t@, p as int, e as int) == Err::<(Seq<Thread>, int), ParseError>(x),
        },
{
    let q0 = keyword_ident(t, p, e, "threads", Section::Threads)?;
    let q1 = arrow(t, q0, e)?;
    let c = group(t, q1, e, Delimiter::Brace, Expected::Braces)?;
    let mut ths: Vec<Thread> = Vec::new();
    entries(t, q1 + 1, c, &mut ths)?;
    Ok((ths, c + 1))
}

/// Reads a `thread` or `local` section.
pub fn block(t: &Vec<Token>, p: usize, e: usize, w: &str, sec: Section) -> (r: Result<
    (Block, usize),
    ParseError,
>)
    requires
        p <= e <= t@.len(),
    ensures
        vpos(r) == sp_block(t@, p as int, e as int, w@, sec),
        vpos_within(r, p as int, e as int),
{
    let a = attrs(t, p, e)?;
    let q1 = keyword_ident(t, a, e, w, sec)?;
    let q2 = arrow(t, q1, e)?;
    let (v, q3) = vis(t, q2, e)?;
    let i = ident(t, q3, e)?;
    let c = group(t, i + 1, e, Delimiter::Brace, Expected::Braces)?;
    Ok((Block { attrs: mk_span(p, a), vis: v, ident: i, tokens: mk_span(i + 2, c) }, c + 1))
}

/// Reads an `index` or `init` section.
pub fn decl(t: &Vec<Token>, p: usize, e: usize, w: &str, sec: Section) -> (r: Result<
    (Decl, usize),
    ParseError,
>)
    requires
        p <= e <= t@.len(),
    ensures
        vpos(r) == sp_decl(t@, p as int, e as int, w@, sec),
        vpos_within(r, p as int, e as int),
{
    let a = attrs(t, p, e)?;
    let q1 = keyword_ident(t, a, e, w, sec)?;
    let q2 = arrow(t, q1, e)?;
    let (v, q3) = vis(t, q2, e)?;
    let i = ident(t, q3, e)?;
    Ok((Decl { attrs: mk_span(p, a), vis: v, ident: i }, i + 1))
}

/// Reads the five sections.
pub fn sections(t: &Vec<Token>) -> (r: Result<(Input, usize), ParseError>)
    ensures
        match r {
            Ok((inp, q)) => sp_sections(t@) == Ok::<(InputView, int), ParseError>((inp@, q as int))
                && q <= t@.len(),
            Err(x) => sp_sections(t@) == Err::<(InputView, int), ParseError>(x),
        },
{
    let n = t.len();
    let (thr, q1) = block(t, 0, n, "thread", Section::Thread)?;
    let q2 = punct(t, q1, n, ';', Expected::Semi)?;
    let (local, q3) = block(t, q2, n, "local", Section::Local)?;
    let q4 = punct(t, q3, n, ';', Expected::Semi)?;
    let (index, q5) = decl(t, q4, n, "index", Section::Index)?;
    let q6 = punct(t, q5, n, ';', Expected::Semi)?;
    let (init, q7) = decl(t, q6, n, "init", Section::Init)?;
    let q8 = punct(t, q7, n, ';', Expected::Semi)?;
    let (threads, q9) = threads_section(t, q8, n)?;
    let inp = Input { thr, local, index, init, threads };
    if q9 < n {
        let q10 = punct(t, q9, n, ';', Expected::Semi)?;
        Ok((inp, q10))
    } else {
        Ok((inp, q9))
    }
}

fn first(a: Option<usize>, b: Option<usize>) -> (r: Option<usize>)
    ensures
        r == first_of(a, b),
{
    match a {
        Some(x) => Some(x),
        None => b,
    }
}

/// The first token left unread inside a group, in the order of reading.
pub fn leftover(inp: &Input) -> (r: Option<usize>)
    ensures
        r == input_leftover(inp@),
{
    let n = inp.threads.len();
    let mut found: Option<usize> = None;
    let mut i = n;
    while i > 0
        invariant
            i <= n == inp.threads@.len(),
            found == threads_leftover(inp.threads@, i as int),
        decreases i,
    {
        i = i - 1;
        let s = spec_of(&inp.threads[i]);
        let k = match s.kind {
            ThreadKind::Inner => None,
            ThreadKind::Outer(a) => a.leftover,
            ThreadKind::Naked(a) => a.leftover,
        };
        found = first(first(s.vis.leftover, k), found);
    }
    first(
        inp.thr.vis.leftover,
        first(
            inp.local.vis.leftover,
            first(inp.index.vis.leftover, first(inp.init.vis.leftover, found)),
        ),
    )
}

/// Parses a whole `thr!` input.
pub fn parse(t: &Vec<Token>) -> (r: Result<Input, ParseError>)
    ensures
        match r {
            Ok(inp) => sp_parse(t@) == Ok::<InputView, ParseError>(inp@),
            Err(x) => sp_parse(t@) == Err::<InputView, ParseError>(x),
        },
{
    let (inp, q) = sections(t)?;
    match leftover(&inp) {
        Some(u) => Err(mk_err(ErrorKind::UnexpectedToken, u)),
        None => if q < t.len() {
            Err(mk_err(ErrorKind::UnexpectedToken, q))
        } else {
            Ok(inp)
        },
    }
}

} // verus!

verus! {

// ---------------------------------------------------------------------------
// Thread numbers
// ---------------------------------------------------------------------------

/// A thread gets a number unless its handler is `naked`.
pub open spec fn is_numbered(th: Thread) -> bool {
    !(thread_spec(th).kind is Naked)
}

/// How many of the first `i` threads get a number.
pub open spec fn count_numbered(ths: Seq<Thread>, i: int) -> nat
    decreases i,
{
    if i <= 0 {
        0
    } else {
        count_numbered(ths, i - 1) + if is_numbered(ths[i - 1]) {
            1nat
        } else {
            0nat
        }
    }
}

/// The number of thread `i`: how many threads before it get a number, or
/// none for a `naked` thread.
pub open spec fn thread_num(ths: Seq<Thread>, i: int) -> Option<usize> {
    if is_numbered(ths[i]) {
        Some(count_numbered(ths, i) as usize)
    } else {
        None
    }
}

proof fn lemma_count_le(ths: Seq<Thread>, i: int)
    requires
        0 <= i,
    ensures
        count_numbered(ths, i) <= i,
    decreases i,
{
    if i > 0 {
        lemma_count_le(ths, i - 1);
    }
}

proof fn lemma_count_monotone(ths: Seq<Thread>, i: int, j: int)
    requires
        0 <= i <= j,
    ensures
        count_numbered(ths, i) <= count_numbered(ths, j),
    decreases j - i,
{
    if i < j {
        lemma_count_monotone(ths, i, j - 1);
    }
}

proof fn lemma_count_reaches(ths: Seq<Thread>, n: int, k: nat)
    requires
        0 <= n,
        k < count_numbered(ths, n),
    ensures
        exists|i: int| 0 <= i < n && is_numbered(ths[i]) && count_numbered(ths, i) == k,
    decreases n,
{
    if k < count_numbered(ths, n - 1) {
        lemma_count_reaches(ths, n - 1, k);
        let i = choose|i: int| 0 <= i < n - 1 && is_numbered(ths[i]) && count_numbered(ths, i) == k;
        assert(0 <= i < n && is_numbered(ths[i]) && count_numbered(ths, i) == k);
    } else {
        assert(is_numbered(ths[n - 1]) && count_numbered(ths, n - 1) == k);
    }
}

/// Some numbered thread has the number `k`.
pub open spec fn number_taken(ths: Seq<Thread>, k: int) -> bool {
    exists|i: int| 0 <= i < ths.len() && is_numbered(ths[i]) && count_numbered(ths, i) == k
}

/// The numbers of the threads are 0, 1, 2, ... in the order of the threads:
/// two numbered threads get different numbers, the earlier the smaller; every
/// number is below the count of numbered threads; and every number below
/// that count belongs to a thread.
pub proof fn lemma_thread_numbers(ths: Seq<Thread>)
    ensures
        forall|i: int, j: int|
            0 <= i < j < ths.len() && is_numbered(ths[i]) && is_numbered(ths[j])
                ==> count_numbered(ths, i) < count_numbered(ths, j),
        forall|i: int|
            0 <= i < ths.len() && is_numbered(ths[i]) ==> count_numbered(ths, i) < count_numbered(
                ths,
                ths.len() as int,
            ),
        forall|k: int|
            0 <= k < count_numbered(ths, ths.len() as int) ==> #[trigger] number_taken(ths, k),
{
    assert forall|i: int, j: int|
        0 <= i < j < ths.len() && is_numbered(ths[i]) && is_numbered(
            ths[j],
        ) implies count_numbered(ths, i) < count_numbered(ths, j) by {
        lemma_count_monotone(ths, i + 1, j);
    }
    assert forall|i: int|
        0 <= i < ths.len() && is_numbered(ths[i]) implies count_numbered(ths, i) < count_numbered(
            ths,
            ths.len() as int,
        ) by {
        lemma_count_monotone(ths, i + 1, ths.len() as int);
    }
    assert forall|k: int| 0 <= k < count_numbered(ths, ths.len() as int) implies #[trigger] number_taken(
        ths,
        k,
    ) by {
        lemma_count_reaches(ths, ths.len() as int, k as nat);
    }
}

/// `nums` holds the number of each thread.
pub open spec fn nums_ok(ths: Seq<Thread>, nums: Seq<Option<usize>>) -> bool {
    &&& nums.len() == ths.len()
    &&& forall|i: int| 0 <= i < ths.len() ==> nums[i] == thread_num(ths, i)
}

/// `arr` is 0, then 0, 1, 2, ... up to the count of numbered threads.
pub open spec fn array_ok(ths: Seq<Thread>, arr: Seq<usize>) -> bool {
    &&& arr.len() == count_numbered(ths, ths.len() as int) + 1
    &&& arr[0] == 0
    &&& forall|k: int| 1 <= k < arr.len() ==> arr[k] == k - 1
}

/// Numbers the threads: each thread that is not `naked` gets the count of
/// numbered threads before it.
pub fn enumerate_threads(threads: &Vec<Thread>) -> (r: Vec<Option<usize>>)
    ensures
        nums_ok(threads@, r@),
{
    let mut r: Vec<Option<usize>> = Vec::new();
    let mut counter: usize = 0;
    let mut i: usize = 0;
    while i < threads.len()
        invariant
            i <= threads@.len(),
            r@.len() == i,
            counter == count_numbered(threads@, i as int),
            forall|k: int| 0 <= k < i ==> r@[k] == thread_num(threads@, k),
        decreases threads@.len() - i,
    {
        proof {
            lemma_count_le(threads@, i as int);
        }
        let s = spec_of(&threads[i]);
        match s.kind {
            ThreadKind::Naked(_) => {
                r.push(None);
            },
            _ => {
                r.push(Some(counter));
                counter = counter + 1;
            },
        }
        i = i + 1;
    }
    r
}

/// The thread numbers that the thread array is built from: 0 for the reset
/// thread, then each numbered thread's number.
pub fn thread_array(threads: &Vec<Thread>) -> (r: Vec<usize>)
    ensures
        array_ok(threads@, r@),
{
    let mut r: Vec<usize> = Vec::new();
    r.push(0);
    let mut counter: usize = 0;
    let mut i: usize = 0;
    while i < threads.len()
        invariant
            i <= threads@.len(),
            counter == count_numbered(threads@, i as int),
            r@.len() == counter + 1,
            r@[0] == 0,
            forall|k: int| 1 <= k < r@.len() ==> r@[k] == k - 1,
        decreases threads@.len() - i,
    {
        proof {
            lemma_count_le(threads@, i as int);
        }
        let s = spec_of(&threads[i]);
        match s.kind {
            ThreadKind::Naked(_) => {},
            _ => {
                r.push(counter);
                counter = counter + 1;
            },
        }
        i = i + 1;
    }
    r
}

// ---------------------------------------------------------------------------
// The thread index
// ---------------------------------------------------------------------------

/// A field of the thread index: the numbered thread it is for, its number,
/// and the names of the field and of the thread's token type.
pub struct IndexEntry {
    pub thread: usize,
    pub num: usize,
    pub field: String,
    pub token_type: String,
}

/// The name of thread `i` as written.
pub open spec fn thread_name(t: Seq<Token>, ths: Seq<Thread>, i: int) -> Seq<char> {
    ident_text(t, thread_spec(ths[i]).ident as int)
}

/// `entries` are the fields of the thread index: one per numbered thread,
/// field `k` for the thread numbered `k`, named in snake_case, of a token
/// type named in PascalCase.
pub open spec fn index_ok(t: Seq<Token>, ths: Seq<Thread>, entries: Seq<IndexEntry>) -> bool {
    &&& entries.len() == count_numbered(ths, ths.len() as int)
    &&& forall|k: int|
        0 <= k < entries.len() ==> {
            let en = #[trigger] entries[k];
            &&& en.num == k
            &&& en.thread < ths.len()
            &&& thread_num(ths, en.thread as int) == Some(k as usize)
            &&& en.field@ == snake_case(thread_name(t, ths, en.thread as int))
            &&& en.token_type@ == pascal_case(thread_name(t, ths, en.thread as int))
        }
}

/// The fields of the thread index, one per numbered thread in order: field
/// `k` is for the thread numbered `k`, named in snake_case, of a token type
/// named in PascalCase.
pub fn index_entries(t: &Vec<Token>, threads: &Vec<Thread>) -> (r: Vec<IndexEntry>)
    ensures
        index_ok(t@, threads@, r@),
{
    let mut r: Vec<IndexEntry> = Vec::new();
    let mut i: usize = 0;
    while i < threads.len()
        invariant
            i <= threads@.len(),
            r@.len() == count_numbered(threads@, i as int),
            forall|k: int|
                0 <= k < r@.len() ==> {
                    let en = #[trigger] r@[k];
                    &&& en.num == k
                    &&& en.thread < i
                    &&& thread_num(threads@, en.thread as int) == Some(k as usize)
                    &&& en.field@ == snake_case(thread_name(t@, threads@, en.thread as int))
                    &&& en.token_type@ == pascal_case(thread_name(t@, threads@, en.thread as int))
                },
        decreases threads@.len() - i,
    {
        proof {
            lemma_count_le(threads@, i as int);
        }
        let s = spec_of(&threads[i]);
        match s.kind {
            ThreadKind::Naked(_) => {},
            _ => {
                let name = ident_str(t, s.ident);
                let num = r.len();
                r.push(
                    IndexEntry {
                        thread: i,
                        num,
                        field: to_snake_case(name),
                        token_type: to_pascal_case(name),
                    },
                );
            },
        }
        i = i + 1;
    }
    r
}

} // verus!

verus! {

// ---------------------------------------------------------------------------
// Interrupt handlers
// ---------------------------------------------------------------------------

/// The interrupt handler of a thread.
#[derive(PartialEq, Eq, Structural, Clone, Copy, Debug)]
pub enum Handler {
    /// A generated handler that resumes thread `num`.
    Inner(usize),
    /// A generated handler that calls the function at the path for thread
    /// `num`.
    Outer(usize, Span),
    /// The function at the path itself.
    Naked(Span),
}

/// The handler of a thread with the number `num`.
pub open spec fn handler_of(th: Thread, num: Option<usize>) -> Handler {
    match thread_spec(th).kind {
        ThreadKind::Inner => Handler::Inner(num.unwrap()),
        ThreadKind::Outer(a) => Handler::Outer(num.unwrap(), a.path),
        ThreadKind::Naked(a) => Handler::Naked(a.path),
    }
}

/// The interrupt table of a set of threads as a spec value.
pub struct InitView {
    pub exception: Option<Handler>,
    pub timer: Option<Handler>,
    pub external: Seq<Option<Handler>>,
    pub handlers: Seq<Handler>,
}

/// The interrupt table: the exception and timer handlers, the external
/// handlers by PLIC source number minus one, and the handlers in the order
/// of their threads.
pub struct InitTable {
    pub exception: Option<Handler>,
    pub timer: Option<Handler>,
    pub external: Vec<Option<Handler>>,
    pub handlers: Vec<Handler>,
}

impl View for InitTable {
    type V = InitView;

    open spec fn view(&self) -> InitView {
        InitView {
            exception: self.exception,
            timer: self.timer,
            external: self.external@,
            handlers: self.handlers@,
        }
    }
}

/// `ext` grown with empty entries to at least `len` entries.
pub open spec fn grown(ext: Seq<Option<Handler>>, len: int) -> Seq<Option<Handler>> {
    if ext.len() < len {
        ext + Seq::new((len - ext.len()) as nat, |_k: int| None::<Handler>)
    } else {
        ext
    }
}

/// The table after thread `th` with handler `h`: an exception or timer
/// thread replaces that handler, an external thread fills the entry of its
/// source (growing the table to reach it), a software thread has no handler.
pub open spec fn init_step(st: InitView, th: Thread, h: Handler) -> InitView {
    match th {
        Thread::Exception(_) => InitView {
            exception: Some(h),
            handlers: st.handlers.push(h),
            ..st
        },
        Thread::Timer(_) => InitView { timer: Some(h), handlers: st.handlers.push(h), ..st },
        Thread::External(src, _) => InitView {
            external: grown(st.external, src as int).update(src - 1, Some(h)),
            handlers: st.handlers.push(h),
            ..st
        },
        Thread::Software(_) => st,
    }
}

/// The table made from the first `i` threads.
pub open spec fn init_upto(ths: Seq<Thread>, i: int) -> InitView
    decreases i,
{
    if i <= 0 {
        InitView { exception: None, timer: None, external: Seq::empty(), handlers: Seq::empty() }
    } else {
        init_step(init_upto(ths, i - 1), ths[i - 1], handler_of(ths[i - 1], thread_num(ths, i - 1)))
    }
}

/// Every external thread names a source above 0.
pub open spec fn sources_positive(ths: Seq<Thread>) -> bool {
    forall|i: int| 0 <= i < ths.len() ==> (#[trigger] ths[i] matches Thread::External(src, _) ==> src > 0)
}

/// Whether every external thread names a source above 0.
pub fn check_sources(threads: &Vec<Thread>) -> (r: bool)
    ensures
        r == sources_positive(threads@),
{
    let mut i: usize = 0;
    while i < threads.len()
        invariant
            i <= threads@.len(),
            forall|k: int|
                0 <= k < i ==> (#[trigger] threads@[k] matches Thread::External(src, _) ==> src > 0),
        decreases threads@.len() - i,
    {
        if let Thread::External(src, _) = &threads[i] {
            if *src == 0 {
                return false;
            }
        }
        i = i + 1;
    }
    true
}

fn handler(th: &Thread, num: Option<usize>) -> (h: Handler)
    requires
        is_numbered(*th) ==> num is Some,
    ensures
        h == handler_of(*th, num),
{
    let s = spec_of(th);
    match s.kind {
        ThreadKind::Inner => Handler::Inner(num.unwrap()),
        ThreadKind::Outer(a) => Handler::Outer(num.unwrap(), a.path),
        ThreadKind::Naked(a) => Handler::Naked(a.path),
    }
}

/// The interrupt table of the threads.
pub fn init_table(threads: &Vec<Thread>) -> (r: InitTable)
    requires
        sources_positive(threads@),
    ensures
        r@ == init_upto(threads@, threads@.len() as int),
{
    let nums = enumerate_threads(threads);
    let mut exception: Option<Handler> = None;
    let mut timer: Option<Handler> = None;
    let mut external: Vec<Option<Handler>> = Vec::new();
    let mut handlers: Vec<Handler> = Vec::new();
    let mut i: usize = 0;
    while i < threads.len()
        invariant
            i <= threads@.len(),
            nums@.len() == threads@.len(),
            forall|k: int| 0 <= k < threads@.len() ==> nums@[k] == thread_num(threads@, k),
            sources_positive(threads@),
            (InitView { exception, timer, external: external@, handlers: handlers@ }) == init_upto(
                threads@,
                i as int,
            ),
        decreases threads@.len() - i,
    {
        let th = &threads[i];
        let h = handler(th, nums[i]);
        match th {
            Thread::Exception(_) => {
                exception = Some(h);
                handlers.push(h);
            },
            Thread::Timer(_) => {
                timer = Some(h);
                handlers.push(h);
            },
            Thread::External(src, _) => {
                let src = *src as usize;
                assert(src > 0);
                let ghost before = external@;
                while external.len() < src
                    invariant
                        before.len() <= external@.len(),
                        external@.len() <= src || external@.len() == before.len(),
                        external@ == before + Seq::new(
                            (external@.len() - before.len()) as nat,
                            |_k: int| None::<Handler>,
                        ),
                    decreases src - external@.len(),
                {
                    external.push(None);
                }
                assert(external@ =~= grown(before, src as int));
                external.set(src - 1, Some(h));
                handlers.push(h);
            },
            Thread::Software(_) => {},
        }
        i = i + 1;
    }
    InitTable { exception, timer, external, handlers }
}

} // verus!

verus! {

/// The last of the first `n` threads that serves external source `src`.
pub open spec fn last_external(ths: Seq<Thread>, n: int, src: int) -> Option<int>
    decreases n,
{
    if n <= 0 {
        None
    } else if ths[n - 1] matches Thread::External(s, _) && s == src {
        Some(n - 1)
    } else {
        last_external(ths, n - 1, src)
    }
}

/// The last of the first `n` threads that serves exceptions.
pub open spec fn last_exception(ths: Seq<Thread>, n: int) -> Option<int>
    decreases n,
{
    if n <= 0 {
        None
    } else if ths[n - 1] is Exception {
        Some(n - 1)
    } else {
        last_exception(ths, n - 1)
    }
}

/// The last of the first `n` threads that serves the timer.
pub open spec fn last_timer(ths: Seq<Thread>, n: int) -> Option<int>
    decreases n,
{
    if n <= 0 {
        None
    } else if ths[n - 1] is Timer {
        Some(n - 1)
    } else {
        last_timer(ths, n - 1)
    }
}

/// The largest source among the first `n` threads, 0 when none is external.
pub open spec fn max_source(ths: Seq<Thread>, n: int) -> nat
    decreases n,
{
    if n <= 0 {
        0
    } else {
        let m = max_source(ths, n - 1);
        match ths[n - 1] {
            Thread::External(s, _) => if s > m {
                s as nat
            } else {
                m
            },
            _ => m,
        }
    }
}

/// The handler of thread `i`, if there is one.
pub open spec fn handler_at(ths: Seq<Thread>, i: Option<int>) -> Option<Handler> {
    match i {
        Some(k) => Some(handler_of(ths[k], thread_num(ths, k))),
        None => None,
    }
}

/// The interrupt table, stated directly: the exception and timer handlers
/// are those of the last exception and timer threads; the external table is
/// as long as the largest source, and the entry of each source is the
/// handler of the last thread that serves it, or empty.
pub proof fn lemma_init_table(ths: Seq<Thread>, n: int)
    requires
        0 <= n <= ths.len(),
        sources_positive(ths),
    ensures
        init_upto(ths, n).exception == handler_at(ths, last_exception(ths, n)),
        init_upto(ths, n).timer == handler_at(ths, last_timer(ths, n)),
        init_upto(ths, n).external.len() == max_source(ths, n),
        forall|k: int|
            0 <= k < init_upto(ths, n).external.len() ==> #[trigger] init_upto(ths, n).external[k]
                == handler_at(ths, last_external(ths, n, k + 1)),
    decreases n,
{
    if n > 0 {
        lemma_init_table(ths, n - 1);
        let prev = init_upto(ths, n - 1);
        let cur = init_upto(ths, n);
        match ths[n - 1] {
            Thread::External(s, _) => {
                assert(ths[n - 1] matches Thread::External(src, _) ==> src > 0);
                assert forall|k: int| 0 <= k < cur.external.len() implies #[trigger] cur.external[k]
                    == handler_at(ths, last_external(ths, n, k + 1)) by {
                    if k == s - 1 {
                    } else if k < prev.external.len() {
                    } else {
                        assert(last_external(ths, n, k + 1) == last_external(ths, n - 1, k + 1));
                        lemma_last_external_bound(ths, n - 1, k + 1);
                    }
                }
            },
            _ => {
                assert forall|k: int| 0 <= k < cur.external.len() implies #[trigger] cur.external[k]
                    == handler_at(ths, last_external(ths, n, k + 1)) by {
                    assert(cur.external[k] == prev.external[k]);
                }
            },
        }
    }
}

proof fn lemma_last_external_bound(ths: Seq<Thread>, n: int, src: int)
    requires
        src > max_source(ths, n),
    ensures
        last_external(ths, n, src) is None,
    decreases n,
{
    if n > 0 {
        lemma_last_external_bound(ths, n - 1, src);
    }
}

} // verus!

verus! {

// ---------------------------------------------------------------------------
// The expansion
// ---------------------------------------------------------------------------

/// Everything the expansion of `thr!` is made of, besides the input's own
/// tokens: the thread numbers, the thread array, the index fields and the
/// interrupt table.
pub struct Expansion {
    pub input: Input,
    pub nums: Vec<Option<usize>>,
    pub array: Vec<usize>,
    pub index: Vec<IndexEntry>,
    pub init: InitTable,
}

/// `x` is the expansion of the input `t` that parsed to `x.input`.
pub open spec fn expansion_ok(t: Seq<Token>, x: Expansion) -> bool {
    let ths = x.input.threads@;
    &&& nums_ok(ths, x.nums@)
    &&& array_ok(ths, x.array@)
    &&& index_ok(t, ths, x.index@)
    &&& x.init@ == init_upto(ths, ths.len() as int)
}

/// `r` is what expanding the input `t` gives: the parse error, or the parsed
/// input with its expansion.
pub open spec fn expands(t: Seq<Token>, r: Result<Expansion, ParseError>) -> bool {
    match r {
        Ok(x) => sp_parse(t) == Ok::<InputView, ParseError>(x.input@) && expansion_ok(t, x),
        Err(e) => sp_parse(t) == Err::<InputView, ParseError>(e),
    }
}

/// Parses the input of `thr!` and computes its expansion. An external thread
/// with source 0 is not accepted (the table entry before the first would be
/// written).
pub fn proc_macro(t: &Vec<Token>) -> (r: Result<Expansion, ParseError>)
    requires
        sp_parse(t@) matches Ok(inp) ==> sources_positive(inp.threads),
    ensures
        expands(t@, r),
{
    let input = parse(t)?;
    let nums = enumerate_threads(&input.threads);
    let array = thread_array(&input.threads);
    let index = index_entries(t, &input.threads);
    let init = init_table(&input.threads);
    Ok(Expansion { input, nums, array, index, init })
}

} // verus!

verus! {

// ---------------------------------------------------------------------------
// Names in a parsed input
// ---------------------------------------------------------------------------

/// Position `i` holds an identifier that is not a keyword.
pub open spec fn names_ident(t: Seq<Token>, i: usize) -> bool {
    crate::syntax::plain_ident(t, i as int, t.len() as int)
}

/// Every thread is named by an identifier.
pub open spec fn threads_named(t: Seq<Token>, ths: Seq<Thread>) -> bool {
    forall|k: int| 0 <= k < ths.len() ==> names_ident(t, #[trigger] thread_spec(ths[k]).ident)
}

/// Every name of the input is an identifier that is not a keyword.
pub open spec fn input_named(t: Seq<Token>, inp: InputView) -> bool {
    &&& names_ident(t, inp.thr.ident)
    &&& names_ident(t, inp.local.ident)
    &&& names_ident(t, inp.index.ident)
    &&& names_ident(t, inp.init.ident)
    &&& threads_named(t, inp.threads)
}

proof fn lemma_ident_named(t: Seq<Token>, p: int, e: int)
    requires
        e <= t.len() <= usize::MAX,
    ensures
        sp_ident(t, p, e) matches Ok(i) ==> i == p && 0 <= p < t.len() && names_ident(t, p as usize),
{
}

proof fn lemma_tail_named(t: Seq<Token>, p: int, e: int, attrs: Span)
    requires
        0 <= p <= e <= t.len() <= usize::MAX,
    ensures
        sp_tail(t, p, e, attrs) matches Ok((s, _)) ==> names_ident(t, s.ident),
{
    lemma_vis_bounds(t, p, e);
    if let Ok((_, q1)) = sp_vis(t, p, e) {
        lemma_group_bounds(t, q1 + 1, e, Delimiter::Parenthesis, Expected::Parens);
        if let Ok((_, q2)) = sp_kind(t, q1, e) {
            lemma_ident_named(t, q2, e);
        }
    }
}

proof fn lemma_push_named(t: Seq<Token>, acc: Seq<Thread>, th: Thread)
    requires
        threads_named(t, acc),
        names_ident(t, thread_spec(th).ident),
    ensures
        threads_named(t, acc.push(th)),
{
    assert forall|k: int| 0 <= k < acc.push(th).len() implies names_ident(
        t,
        #[trigger] thread_spec(acc.push(th)[k]).ident,
    ) by {
        if k < acc.len() {
            assert(acc.push(th)[k] == acc[k]);
        }
    }
}

proof fn lemma_external_items_named(t: Seq<Token>, p: int, e: int, acc: Seq<Thread>)
    requires
        0 <= p,
        e <= t.len() <= usize::MAX,
        threads_named(t, acc),
    ensures
        sp_external_items(t, p, e, acc) matches Ok(r) ==> threads_named(t, r),
    decreases e - p,
{
    if p < e {
        lemma_attrs_bounds(t, p, e);
        if let Ok(a) = sp_attrs(t, p, e) {
            if let Ok(num) = sp_int(t, a, e) {
                if let Ok(q1) = sp_punct(t, a + 1, e, ':', Expected::Colon) {
                    lemma_tail_bounds(t, q1, e, span(p, a));
                    lemma_tail_named(t, q1, e, span(p, a));
                    if let Ok((s, q2)) = sp_tail(t, q1, e, span(p, a)) {
                        lemma_push_named(t, acc, Thread::External(num, s));
                        let acc2 = acc.push(Thread::External(num, s));
                        if q2 < e {
                            if let Ok(q3) = sp_punct(t, q2, e, ',', Expected::Comma) {
                                lemma_external_items_named(t, q3, e, acc2);
                            }
                        } else {
                            lemma_external_items_named(t, q2, e, acc2);
                        }
                    }
                }
            }
        }
    }
}

proof fn lemma_software_items_named(t: Seq<Token>, p: int, e: int, acc: Seq<Thread>)
    requires
        0 <= p,
        e <= t.len() <= usize::MAX,
        threads_named(t, acc),
    ensures
        sp_software_items(t, p, e, acc) matches Ok(r) ==> threads_named(t, r),
    decreases e - p,
{
    if p < e {
        lemma_attrs_bounds(t, p, e);
        if let Ok(a) = sp_attrs(t, p, e) {
            lemma_tail_bounds(t, a, e, span(p, a));
            lemma_tail_named(t, a, e, span(p, a));
            if let Ok((s, q2)) = sp_tail(t, a, e, span(p, a)) {
                lemma_push_named(t, acc, Thread::Software(s));
                let acc2 = acc.push(Thread::Software(s));
                if q2 < e {
                    if let Ok(q3) = sp_punct(t, q2, e, ',', Expected::Comma) {
                        lemma_software_items_named(t, q3, e, acc2);
                    }
                } else {
                    lemma_software_items_named(t, q2, e, acc2);
                }
            }
        }
    }
}

proof fn lemma_entry_body_named(t: Seq<Token>, p: int, a: int, q: int, e: int, acc: Seq<Thread>)
    requires
        0 <= q <= e <= t.len() <= usize::MAX,
        threads_named(t, acc),
    ensures
        sp_entry_body(t, p, a, q, e, acc) matches Ok((r, _)) ==> threads_named(t, r),
{
    lemma_group_bounds(t, q, e, Delimiter::Brace, Expected::Braces);
    if let Ok(c) = sp_group(t, q, e, Delimiter::Brace, Expected::Braces) {
        lemma_external_items_named(t, q + 1, c, acc);
        lemma_software_items_named(t, q + 1, c, acc);
    }
    lemma_tail_named(t, q, e, span(p, a));
    if let Ok((s, _)) = sp_tail(t, q, e, span(p, a)) {
        lemma_push_named(t, acc, Thread::Exception(s));
        lemma_push_named(t, acc, Thread::Timer(s));
    }
}

proof fn lemma_entries_named(t: Seq<Token>, p: int, e: int, acc: Seq<Thread>)
    requires
        0 <= p,
        e <= t.len() <= usize::MAX,
        threads_named(t, acc),
    ensures
        sp_entries(t, p, e, acc) matches Ok(r) ==> threads_named(t, r),
    decreases e - p,
{
    if p < e {
        lemma_attrs_bounds(t, p, e);
        if let Ok(a) = sp_attrs(t, p, e) {
            if let Ok(_) = sp_ident(t, a, e) {
                if let Ok(q1) = sp_fat_arrow(t, a + 1, e) {
                    lemma_entry_body_bounds(t, p, a, q1, e, acc);
                    lemma_entry_body_named(t, p, a, q1, e, acc);
                    if let Ok((acc2, q2)) = sp_entry_body(t, p, a, q1, e, acc) {
                        if q2 < e {
                            if let Ok(q3) = sp_punct(t, q2, e, ',', Expected::Comma) {
                                lemma_entries_named(t, q3, e, acc2);
                            }
                        } else {
                            lemma_entries_named(t, q2, e, acc2);
                        }
                    }
                }
            }
        }
    }
}

proof fn lemma_block_named(t: Seq<Token>, p: int, e: int, w: Seq<char>, sec: Section)
    requires
        0 <= p <= e <= t.len() <= usize::MAX,
    ensures
        sp_block(t, p, e, w, sec) matches Ok((b, q)) ==> names_ident(t, b.ident) && p <= q <= e,
        sp_decl(t, p, e, w, sec) matches Ok((d, q)) ==> names_ident(t, d.ident) && p <= q <= e,
{
    lemma_attrs_bounds(t, p, e);
    if let Ok(a) = sp_attrs(t, p, e) {
        if let Ok(q1) = sp_keyword(t, a, e, w, sec) {
            if let Ok(q2) = sp_fat_arrow(t, q1, e) {
                lemma_vis_bounds(t, q2, e);
                if let Ok((_, q3)) = sp_vis(t, q2, e) {
                    lemma_ident_named(t, q3, e);
                    lemma_group_bounds(t, q3 + 1, e, Delimiter::Brace, Expected::Braces);
                }
            }
        }
    }
}

/// A parsed input names its thread type, thread-local type, index, init
/// token and every thread by an identifier that is not a keyword, so every
/// name position that the expansion reads holds one.
pub proof fn lemma_parse_named(t: Seq<Token>)
    requires
        t.len() <= usize::MAX,
    ensures
        sp_parse(t) matches Ok(inp) ==> input_named(t, inp),
{
    let n = t.len() as int;
    lemma_block_named(t, 0, n, "thread"@, Section::Thread);
    if let Ok((_, q1)) = sp_block(t, 0, n, "thread"@, Section::Thread) {
        if let Ok(q2) = sp_punct(t, q1, n, ';', Expected::Semi) {
            lemma_block_named(t, q2, n, "local"@, Section::Local);
            if let Ok((_, q3)) = sp_block(t, q2, n, "local"@, Section::Local) {
                if let Ok(q4) = sp_punct(t, q3, n, ';', Expected::Semi) {
                    lemma_block_named(t, q4, n, "index"@, Section::Index);
                    if let Ok((_, q5)) = sp_decl(t, q4, n, "index"@, Section::Index) {
                        if let Ok(q6) = sp_punct(t, q5, n, ';', Expected::Semi) {
                            lemma_block_named(t, q6, n, "init"@, Section::Init);
                            if let Ok((_, q7)) = sp_decl(t, q6, n, "init"@, Section::Init) {
                                if let Ok(q8) = sp_punct(t, q7, n, ';', Expected::Semi) {
                                    if let Ok(q0) = sp_keyword(t, q8, n, "threads"@, Section::Threads) {
                                        if let Ok(qa) = sp_fat_arrow(t, q0, n) {
                                            lemma_group_bounds(
                                                t,
                                                qa,
                                                n,
                                                Delimiter::Brace,
                                                Expected::Braces,
                                            );
                                            if let Ok(c) = sp_group(
                                                t,
                                                qa,
                                                n,
                                                Delimiter::Brace,
                                                Expected::Braces,
                                            ) {
                                                lemma_entries_named(t, qa + 1, c, Seq::empty());
                                            }
                                        }
                                    }
                                }
                            }
                        }
                    }
                }
            }
        }
    }
}

} // verus!

verus! {

/// The thread array and the thread index agree: the array has one entry for
/// the reset thread and one per index field, and the entry after the reset
/// thread's at each field's place holds that field's thread number.
pub proof fn lemma_array_matches_index(
    t: Seq<Token>,
    ths: Seq<Thread>,
    arr: Seq<usize>,
    entries: Seq<IndexEntry>,
)
    requires
        array_ok(ths, arr),
        index_ok(t, ths, entries),
    ensures
        arr.len() == entries.len() + 1,
        forall|k: int| 0 <= k < entries.len() ==> arr[k + 1] == (#[trigger] entries[k]).num,
{
    assert forall|k: int| 0 <= k < entries.len() implies arr[k + 1] == (#[trigger] entries[k]).num by {
        assert(arr[k + 1] == k);
    }
}

} // verus!

verus! {

/// The index fields, each as its thread, number and the two names' text.
pub open spec fn index_view(entries: Seq<IndexEntry>) -> Seq<(usize, usize, Seq<char>, Seq<char>)> {
    entries.map_values(|en: IndexEntry| (en.thread, en.num, en.field@, en.token_type@))
}

/// The index fields are fixed by the threads and the tokens.
pub proof fn lemma_index_determined(t: Seq<Token>, ths: Seq<Thread>, e1: Seq<IndexEntry>, e2: Seq<IndexEntry>)
    requires
        index_ok(t, ths, e1),
        index_ok(t, ths, e2),
    ensures
        index_view(e1) == index_view(e2),
{
    lemma_thread_numbers(ths);
    assert forall|k: int| 0 <= k < e1.len() implies #[trigger] index_view(e1)[k] == index_view(e2)[k] by {
        let a = e1[k];
        let b = e2[k];
        lemma_count_le(ths, a.thread as int);
        lemma_count_le(ths, b.thread as int);
        if a.thread < b.thread {
            assert(count_numbered(ths, a.thread as int) < count_numbered(ths, b.thread as int));
        } else if b.thread < a.thread {
            assert(count_numbered(ths, b.thread as int) < count_numbered(ths, a.thread as int));
        }
    }
    assert(index_view(e1) =~= index_view(e2));
}

/// Two expansions of the same parsed input are the same: the same thread
/// numbers, thread array, index fields (up to the identity of their
/// strings) and interrupt table.
pub proof fn lemma_expansion_ok_determined(t: Seq<Token>, x1: Expansion, x2: Expansion)
    requires
        x1.input@ == x2.input@,
        expansion_ok(t, x1),
        expansion_ok(t, x2),
    ensures
        x1.nums@ == x2.nums@,
        x1.array@ == x2.array@,
        index_view(x1.index@) == index_view(x2.index@),
        x1.init@ == x2.init@,
{
    let ths = x1.input.threads@;
    assert(x1.nums@ =~= x2.nums@);
    assert(x1.array@ =~= x2.array@);
    lemma_index_determined(t, ths, x1.index@, x2.index@);
}

/// Two results that both expand the same input are the same: the same
/// error, or the same parsed input, thread numbers, thread array, index
/// fields (up to the identity of their strings) and interrupt table. The
/// entry point `thr` and `thr::proc_macro` both promise `expands`, so they
/// give the same expansion of every input.
pub proof fn lemma_expansion_determined(
    t: Seq<Token>,
    r1: Result<Expansion, ParseError>,
    r2: Result<Expansion, ParseError>,
)
    requires
        expands(t, r1),
        expands(t, r2),
    ensures
        r1 is Ok <==> r2 is Ok,
        r1 matches Err(e1) ==> r2 matches Err(e2) && e1 == e2,
        r1 matches Ok(x1) ==> r2 matches Ok(x2) && {
            &&& x1.input@ == x2.input@
            &&& x1.nums@ == x2.nums@
            &&& x1.array@ == x2.array@
            &&& index_view(x1.index@) == index_view(x2.index@)
            &&& x1.init@ == x2.init@
        },
{
    if let Ok(x1) = r1 {
        if let Ok(x2) = r2 {
            assert(Ok::<InputView, ParseError>(x1.input@) == Ok::<InputView, ParseError>(x2.input@));
            lemma_expansion_ok_determined(t, x1, x2);
        }
    }
}

// ---------------------------------------------------------------------------
// Laws of the thread lists
// ---------------------------------------------------------------------------

/// A list read from `p` with `acc` before it is `acc` followed by the list
/// read from `p` alone.
pub open spec fn after(acc: Seq<Thread>, r: Result<Seq<Thread>, ParseError>) -> Result<
    Seq<Thread>,
    ParseError,
> {
    match r {
        Ok(ths) => Ok(acc + ths),
        Err(x) => Err(x),
    }
}

/// Software items append to what was read before them and change nothing
/// of it.
#[verifier::spinoff_prover]
#[verifier::rlimit(40)]
pub proof fn lemma_software_items_append(t: Seq<Token>, p: int, e: int, acc: Seq<Thread>)
    ensures
        sp_software_items(t, p, e, acc) == after(acc, sp_software_items(t, p, e, Seq::empty())),
    decreases e - p,
{
    if p >= e {
        assert(acc + Seq::<Thread>::empty() =~= acc);
    } else if let Ok(a) = sp_attrs(t, p, e) {
        if let Ok((s, q2)) = sp_tail(t, a, e, span(p, a)) {
            lemma_attrs_bounds(t, p, e);
            lemma_tail_bounds(t, a, e, span(p, a));
            let th = Thread::Software(s);
            let one = Seq::<Thread>::empty().push(th);
            let q = if q2 < e {
                match sp_punct(t, q2, e, ',', Expected::Comma) {
                    Ok(q3) => q3,
                    Err(_) => e,
                }
            } else {
                q2
            };
            if q2 >= e || sp_punct(t, q2, e, ',', Expected::Comma) is Ok {
                lemma_software_items_append(t, q, e, acc.push(th));
                lemma_software_items_append(t, q, e, one);
                if let Ok(r) = sp_software_items(t, q, e, Seq::empty()) {
                    assert(acc.push(th) + r =~= acc + (one + r));
                }
            }
        }
    }
}

/// Every item of a `software` group is a software thread, in order: the
/// first item gives the first thread, and the threads of the items after
/// its comma follow it; the last item gives the last thread.
pub proof fn lemma_software_items_each(t: Seq<Token>, p: int, e: int)
    requires
        p < e,
        sp_attrs(t, p, e) is Ok,
        sp_tail(t, sp_attrs(t, p, e)->Ok_0, e, span(p, sp_attrs(t, p, e)->Ok_0)) is Ok,
    ensures
        ({
            let a = sp_attrs(t, p, e)->Ok_0;
            let (s, q2) = sp_tail(t, a, e, span(p, a))->Ok_0;
            let first = Seq::<Thread>::empty().push(Thread::Software(s));
            &&& q2 >= e ==> sp_software_items(t, p, e, Seq::empty()) == Ok::<Seq<Thread>, ParseError>(
                first,
            )
            &&& (q2 < e && sp_punct(t, q2, e, ',', Expected::Comma) is Ok) ==> sp_software_items(
                t,
                p,
                e,
                Seq::empty(),
            ) == after(first, sp_software_items(t, q2 + 1, e, Seq::empty()))
        }),
{
    let a = sp_attrs(t, p, e)->Ok_0;
    let (s, q2) = sp_tail(t, a, e, span(p, a))->Ok_0;
    lemma_attrs_bounds(t, p, e);
    lemma_tail_bounds(t, a, e, span(p, a));
    let first = Seq::<Thread>::empty().push(Thread::Software(s));
    lemma_software_items_append(t, q2 + 1, e, first);
    lemma_software_items_append(t, q2, e, first);
    assert(first + Seq::<Thread>::empty() =~= first);
}

/// External items append to what was read before them and change nothing
/// of it.
#[verifier::spinoff_prover]
#[verifier::rlimit(40)]
pub proof fn lemma_external_items_append(t: Seq<Token>, p: int, e: int, acc: Seq<Thread>)
    ensures
        sp_external_items(t, p, e, acc) == after(acc, sp_external_items(t, p, e, Seq::empty())),
    decreases e - p,
{
    if p >= e {
        assert(acc + Seq::<Thread>::empty() =~= acc);
    } else if let Ok(a) = sp_attrs(t, p, e) {
        if let Ok(num) = sp_int(t, a, e) {
            if let Ok(q1) = sp_punct(t, a + 1, e, ':', Expected::Colon) {
                if let Ok((s, q2)) = sp_tail(t, q1, e, span(p, a)) {
                    lemma_attrs_bounds(t, p, e);
                    lemma_tail_bounds(t, q1, e, span(p, a));
                    let th = Thread::External(num, s);
                    let one = Seq::<Thread>::empty().push(th);
                    let q = if q2 < e {
                        match sp_punct(t, q2, e, ',', Expected::Comma) {
                            Ok(q3) => q3,
                            Err(_) => e,
                        }
                    } else {
                        q2
                    };
                    if q2 >= e || sp_punct(t, q2, e, ',', Expected::Comma) is Ok {
                        lemma_external_items_append(t, q, e, acc.push(th));
                        lemma_external_items_append(t, q, e, one);
                        if let Ok(r) = sp_external_items(t, q, e, Seq::empty()) {
                            assert(acc.push(th) + r =~= acc + (one + r));
                        }
                    }
                }
            }
        }
    }
}

/// Outer attributes before `exception =>` or `timer =>` do not change
/// whether the entry reads; read, it adds one exception or timer thread
/// whose attributes are the ones from `p` up to the word.
#[verifier::spinoff_prover]
pub proof fn lemma_entry_attrs(
    t: Seq<Token>,
    p: int,
    p2: int,
    a: int,
    q: int,
    e: int,
    acc: Seq<Thread>,
)
    requires
        p <= a,
        p2 <= a,
        ident_is(t, a, e, "exception"@) || ident_is(t, a, e, "timer"@),
    ensures
        sp_entry_body(t, p, a, q, e, acc) is Ok <==> sp_entry_body(t, p2, a, q, e, acc) is Ok,
        sp_entry_body(t, p, a, q, e, acc) matches Ok((r, _)) ==> {
            &&& r.len() == acc.len() + 1
            &&& r.drop_last() == acc
            &&& thread_spec(r.last()).attrs == span(p, a)
            &&& (ident_is(t, a, e, "exception"@) ==> r.last() is Exception)
            &&& (ident_is(t, a, e, "timer"@) ==> r.last() is Timer)
        },
        sp_entry_body(t, p, a, q, e, acc) matches Ok((r, q2)) ==> sp_tail(t, q, e, span(p, a))
            == Ok::<(ThreadSpec, int), ParseError>((thread_spec(r.last()), q2)),
{
    reveal_strlit("exception");
    reveal_strlit("timer");
    reveal_strlit("external");
    reveal_strlit("software");
    assert("exception"@.len() == 9 && "timer"@.len() == 5);
    assert("external"@.len() == 8 && "software"@.len() == 8);
    assert(!ident_is(t, a, e, "external"@) && !ident_is(t, a, e, "software"@));
    if let Ok((r, _)) = sp_entry_body(t, p, a, q, e, acc) {
        assert(r.drop_last() =~= acc);
    }
}

/// Every item of an `external` group is an external thread with its source
/// number, in order: the first item gives the first thread, and the threads
/// of the items after its comma follow it; the last item gives the last
/// thread.
pub proof fn lemma_external_items_each(t: Seq<Token>, p: int, e: int)
    requires
        p < e,
        sp_attrs(t, p, e) is Ok,
        sp_int(t, sp_attrs(t, p, e)->Ok_0, e) is Ok,
        punct_is(t, sp_attrs(t, p, e)->Ok_0 + 1, e, ':'),
        sp_tail(t, sp_attrs(t, p, e)->Ok_0 + 2, e, span(p, sp_attrs(t, p, e)->Ok_0)) is Ok,
    ensures
        ({
            let a = sp_attrs(t, p, e)->Ok_0;
            let (s, q2) = sp_tail(t, a + 2, e, span(p, a))->Ok_0;
            let first = Seq::<Thread>::empty().push(Thread::External(sp_int(t, a, e)->Ok_0, s));
            &&& q2 >= e ==> sp_external_items(t, p, e, Seq::empty()) == Ok::<Seq<Thread>, ParseError>(
                first,
            )
            &&& (q2 < e && punct_is(t, q2, e, ',')) ==> sp_external_items(t, p, e, Seq::empty())
                == after(first, sp_external_items(t, q2 + 1, e, Seq::empty()))
        }),
{
    let a = sp_attrs(t, p, e)->Ok_0;
    let (s, q2) = sp_tail(t, a + 2, e, span(p, a))->Ok_0;
    lemma_attrs_bounds(t, p, e);
    lemma_tail_bounds(t, a + 2, e, span(p, a));
    let first = Seq::<Thread>::empty().push(Thread::External(sp_int(t, a, e)->Ok_0, s));
    lemma_external_items_append(t, q2 + 1, e, first);
    lemma_external_items_append(t, q2, e, first);
    assert(first + Seq::<Thread>::empty() =~= first);
}

/// An entry result read with `acc` before it: `acc` followed by the threads
/// of the entry read alone.
pub open spec fn entry_after(acc: Seq<Thread>, r: Result<(Seq<Thread>, int), ParseError>) -> Result<
    (Seq<Thread>, int),
    ParseError,
> {
    match r {
        Ok((ths, q)) => Ok((acc + ths, q)),
        Err(x) => Err(x),
    }
}

/// An entry appends its threads to what was read before it and changes
/// nothing of it.
pub proof fn lemma_entry_body_append(t: Seq<Token>, p: int, a: int, q: int, e: int, acc: Seq<Thread>)
    ensures
        sp_entry_body(t, p, a, q, e, acc) == entry_after(
            acc,
            sp_entry_body(t, p, a, q, e, Seq::empty()),
        ),
{
    if let Ok(c) = sp_group(t, q, e, Delimiter::Brace, Expected::Braces) {
        lemma_external_items_append(t, q + 1, c, acc);
        lemma_software_items_append(t, q + 1, c, acc);
    }
    if let Ok((s, _)) = sp_tail(t, q, e, span(p, a)) {
        assert(acc.push(Thread::Exception(s)) =~= acc + Seq::<Thread>::empty().push(Thread::Exception(s)));
        assert(acc.push(Thread::Timer(s)) =~= acc + Seq::<Thread>::empty().push(Thread::Timer(s)));
    }
}

/// The entries of the `threads` section append to what was read before
/// them and change nothing of it.
#[verifier::spinoff_prover]
pub proof fn lemma_entries_append(t: Seq<Token>, p: int, e: int, acc: Seq<Thread>)
    ensures
        sp_entries(t, p, e, acc) == after(acc, sp_entries(t, p, e, Seq::empty())),
    decreases e - p,
{
    if p >= e {
        assert(acc + Seq::<Thread>::empty() =~= acc);
    } else if let Ok(a) = sp_attrs(t, p, e) {
        if let Ok(q1) = sp_fat_arrow(t, a + 1, e) {
            lemma_attrs_bounds(t, p, e);
            lemma_entry_body_append(t, p, a, q1, e, acc);
            if let Ok((r, q2)) = sp_entry_body(t, p, a, q1, e, Seq::empty()) {
                lemma_entry_body_bounds(t, p, a, q1, e, Seq::empty());
                let q = if q2 < e {
                    q2 + 1
                } else {
                    q2
                };
                lemma_entries_append(t, q, e, acc + r);
                lemma_entries_append(t, q, e, r);
                if let Ok(r2) = sp_entries(t, q, e, Seq::empty()) {
                    assert((acc + r) + r2 =~= acc + (r + r2));
                }
            }
        }
    }
}

/// Every entry of the `threads` section gives its threads, in order: the
/// first entry gives the first threads, and the threads of the entries
/// after its comma follow them.
pub proof fn lemma_entries_each(t: Seq<Token>, p: int, a: int, e: int)
    requires
        p < e,
        sp_attrs(t, p, e) == Ok::<int, ParseError>(a),
        sp_ident(t, a, e) is Ok,
        sp_fat_arrow(t, a + 1, e) is Ok,
        sp_entry_body(t, p, a, a + 3, e, Seq::empty()) is Ok,
    ensures
        ({
            let (first, q2) = sp_entry_body(t, p, a, a + 3, e, Seq::empty())->Ok_0;
            &&& q2 >= e ==> sp_entries(t, p, e, Seq::empty()) == Ok::<Seq<Thread>, ParseError>(first)
            &&& (q2 < e && punct_is(t, q2, e, ',')) ==> sp_entries(t, p, e, Seq::empty()) == after(
                first,
                sp_entries(t, q2 + 1, e, Seq::empty()),
            )
        }),
{
    let (first, q2) = sp_entry_body(t, p, a, a + 3, e, Seq::empty())->Ok_0;
    lemma_attrs_bounds(t, p, e);
    lemma_entry_body_bounds(t, p, a, a + 3, e, Seq::empty());
    lemma_entries_append(t, q2 + 1, e, first);
    lemma_entries_append(t, q2, e, first);
    assert(first + Seq::<Thread>::empty() =~= first);
}

/// `external` and `software` take no attributes: with attributes before
/// them they are refused as unexpected words, as is any word other than
/// `exception`, `timer`, `external` and `software`.
pub proof fn lemma_entry_words(t: Seq<Token>, p: int, a: int, q: int, e: int, acc: Seq<Thread>)
    ensures
        a != p && (ident_is(t, a, e, "external"@) || ident_is(t, a, e, "software"@)) ==> sp_entry_body(
            t,
            p,
            a,
            q,
            e,
            acc,
        ) == Err::<(Seq<Thread>, int), ParseError>(err(ErrorKind::UnexpectedIdent(a as usize), q)),
        !(ident_is(t, a, e, "external"@) || ident_is(t, a, e, "software"@) || ident_is(
            t,
            a,
            e,
            "exception"@,
        ) || ident_is(t, a, e, "timer"@)) ==> sp_entry_body(t, p, a, q, e, acc) == Err::<
            (Seq<Thread>, int),
            ParseError,
        >(err(ErrorKind::UnexpectedIdent(a as usize), q)),
{
    reveal_strlit("exception");
    reveal_strlit("timer");
    reveal_strlit("external");
    reveal_strlit("software");
    assert("exception"@.len() == 9 && "timer"@.len() == 5);
    assert("external"@.len() == 8 && "software"@.len() == 8);
    assert("external"@[0] != "software"@[0]);
}

} // verus!
